use vstd::prelude::*;
use crate::bitset::{BitSet, CAPACITY};

verus! {

broadcast use crate::bitset::lemma_bitset_view_len;

/// Why a graph description was rejected.
#[derive(Clone, Copy, Debug, PartialEq, Eq, Structural)]
pub enum GraphError {
    /// The color list and the neighbour list disagree on the node count.
    LengthMismatch,
    /// More nodes than a `BitSet` can hold.
    TooManyNodes,
    /// A color id at or above the fixed capacity.
    ColorOutOfRange,
    /// A neighbour id at or above the node count.
    NeighbourOutOfRange,
}

/// Immutable topology and coloring of one puzzle: per node the set of its
/// neighbours, per color the set of nodes of that color, both as bit-sets.
pub struct Graph {
    neighbours: Vec<BitSet>,
    colors: Vec<BitSet>,
}

/// The neighbour lists of a description, as plain sequences.
pub open spec fn rows(neighbours: Seq<Vec<usize>>) -> Seq<Seq<usize>> {
    neighbours.map_values(|v: Vec<usize>| v@)
}

/// A graph description the constructor accepts: one color per node, at most
/// `CAPACITY` nodes, neighbour ids below the node count, color ids below
/// `CAPACITY`.
pub open spec fn valid_description(neighbours: Seq<Seq<usize>>, node_colors: Seq<usize>) -> bool {
    &&& node_colors.len() == neighbours.len()
    &&& neighbours.len() <= CAPACITY
    &&& forall|i: int, j: int|
        0 <= i < neighbours.len() && 0 <= j < neighbours[i].len()
            ==> (#[trigger] neighbours[i][j]) < neighbours.len()
    &&& forall|i: int| 0 <= i < node_colors.len() ==> (#[trigger] node_colors[i]) < CAPACITY
}

/// The adjacency bits the constructor builds for node `i`: bit `m` is one
/// exactly when `m` occurs in the neighbour list of `i`.
pub open spec fn neighbour_bits(neighbours: Seq<Seq<usize>>, i: int) -> Seq<bool> {
    Seq::new(
        CAPACITY as nat,
        |m: int| exists|j: int| 0 <= j < neighbours[i].len() && neighbours[i][j] == m,
    )
}

/// The class bits the constructor builds for color `c`: bit `n` is one
/// exactly when node `n` carries color `c`.
pub open spec fn color_bits(node_colors: Seq<usize>, c: int) -> Seq<bool> {
    Seq::new(
        CAPACITY as nat,
        |n: int| 0 <= n < node_colors.len() && node_colors[n] == c,
    )
}

/// Number of color classes of a description: one past the largest color id.
pub open spec fn num_colors(node_colors: Seq<usize>) -> int
    decreases node_colors.len(),
{
    if node_colors.len() == 0 {
        0
    } else {
        let rest = num_colors(node_colors.drop_last());
        if node_colors.last() + 1 > rest {
            node_colors.last() + 1
        } else {
            rest
        }
    }
}

/// Every color id of a description lies below its number of classes.
pub proof fn lemma_num_colors_bound(node_colors: Seq<usize>)
    ensures
        forall|i: int| 0 <= i < node_colors.len() ==> (#[trigger] node_colors[i]) < num_colors(node_colors),
    decreases node_colors.len(),
{
    if node_colors.len() > 0 {
        lemma_num_colors_bound(node_colors.drop_last());
        assert(forall|i: int| 0 <= i < node_colors.len() - 1
            ==> node_colors.drop_last()[i] == node_colors[i]);
    }
}

impl Graph {
    /// Adjacency views: per node, the membership bits of its neighbour set.
    pub closed spec fn nbrs(self) -> Seq<Seq<bool>> {
        self.neighbours@.map_values(|b: BitSet| b@)
    }

    /// Color-class views: per color, the membership bits of its node set.
    pub closed spec fn cols(self) -> Seq<Seq<bool>> {
        self.colors@.map_values(|b: BitSet| b@)
    }

    /// Total number of nodes.
    pub open spec fn node_count_spec(self) -> int {
        self.nbrs().len() as int
    }

    /// Total number of color classes.
    pub open spec fn color_count_spec(self) -> int {
        self.cols().len() as int
    }

    /// Node `n` belongs to color class `c`.
    pub open spec fn in_class(self, c: int, n: int) -> bool {
        0 <= c < self.color_count_spec() && 0 <= n < CAPACITY && self.cols()[c][n]
    }

    /// Node `n` carries at least one color.
    pub open spec fn has_color(self, n: int) -> bool {
        exists|c: int| self.in_class(c, n)
    }

    /// Node `m` is listed among the neighbours of node `n`.
    pub open spec fn adj(self, n: int, m: int) -> bool {
        0 <= n < self.node_count_spec() && 0 <= m < CAPACITY && self.nbrs()[n][m]
    }

    /// The backing bit-sets hold all their words.
    pub closed spec fn wf_data(self) -> bool {
        &&& forall|i: int| 0 <= i < self.neighbours@.len() ==> (#[trigger] self.neighbours@[i]).wf()
        &&& forall|i: int| 0 <= i < self.colors@.len() ==> (#[trigger] self.colors@[i]).wf()
    }

    /// A well-formed graph: everything fits the fixed capacity, adjacency
    /// and classes only mention real nodes, and the classes partition the
    /// node set.
    pub open spec fn wf(self) -> bool {
        &&& self.wf_data()
        &&& 0 <= self.node_count_spec() <= CAPACITY
        &&& 0 <= self.color_count_spec() <= CAPACITY
        &&& forall|n: int, m: int| #[trigger] self.adj(n, m) ==> 0 <= m < self.node_count_spec()
        &&& forall|c: int, n: int| #[trigger] self.in_class(c, n) ==> 0 <= n < self.node_count_spec()
        &&& forall|n: int| 0 <= n < self.node_count_spec() ==> #[trigger] self.has_color(n)
        &&& forall|c1: int, c2: int, n: int| self.in_class(c1, n) && self.in_class(c2, n) ==> c1 == c2
    }

    /// Total number of nodes.
    pub fn node_count(&self) -> (r: usize)
        ensures
            r == self.node_count_spec(),
    {
        self.neighbours.len()
    }

    /// Total number of color classes.
    pub fn color_count(&self) -> (r: usize)
        ensures
            r == self.color_count_spec(),
    {
        self.colors.len()
    }

    /// The precomputed neighbour set of a node.
    pub fn neighbours_of(&self, node: usize) -> (r: &BitSet)
        requires
            self.wf(),
            node < self.node_count_spec(),
        ensures
            r.wf(),
            r@ == self.nbrs()[node as int],
    {
        &self.neighbours[node]
    }

    /// The precomputed node set of a color class.
    pub fn nodes_of_color(&self, color: usize) -> (r: &BitSet)
        requires
            self.wf(),
            color < self.color_count_spec(),
        ensures
            r.wf(),
            r@ == self.cols()[color as int],
    {
        &self.colors[color]
    }

    /// Builds a graph from per-node neighbour lists and per-node color ids,
    /// validating every index eagerly. Succeeds exactly on valid
    /// descriptions, and then pins both families of bit-sets.
    pub fn new(neighbours: Vec<Vec<usize>>, node_colors: Vec<usize>) -> (r: Result<Graph, GraphError>)
        ensures
            r is Ok <==> valid_description(rows(neighbours@), node_colors@),
            r matches Ok(g) ==> {
                &&& g.wf()
                &&& g.node_count_spec() == neighbours@.len()
                &&& g.color_count_spec() == num_colors(node_colors@)
                &&& forall|i: int| 0 <= i < neighbours@.len()
                    ==> g.nbrs()[i] == neighbour_bits(rows(neighbours@), i)
                &&& forall|c: int| 0 <= c < num_colors(node_colors@)
                    ==> g.cols()[c] == color_bits(node_colors@, c)
            },
            r == Err::<Graph, GraphError>(GraphError::LengthMismatch)
                <==> node_colors@.len() != neighbours@.len(),
            r == Err::<Graph, GraphError>(GraphError::TooManyNodes)
                <==> node_colors@.len() == neighbours@.len() && neighbours@.len() > CAPACITY,
            r == Err::<Graph, GraphError>(GraphError::ColorOutOfRange)
                <==> node_colors@.len() == neighbours@.len() && neighbours@.len() <= CAPACITY
                    && (exists|i: int| 0 <= i < node_colors@.len() && (#[trigger] node_colors@[i]) >= CAPACITY),
            r == Err::<Graph, GraphError>(GraphError::NeighbourOutOfRange)
                <==> node_colors@.len() == neighbours@.len() && neighbours@.len() <= CAPACITY
                    && (forall|i: int| 0 <= i < node_colors@.len() ==> (#[trigger] node_colors@[i]) < CAPACITY)
                    && (exists|i: int, j: int| 0 <= i < neighbours@.len()
                        && 0 <= j < rows(neighbours@)[i].len()
                        && (#[trigger] rows(neighbours@)[i][j]) >= neighbours@.len()),
    {
        let n = neighbours.len();
        if node_colors.len() != n {
            return Err(GraphError::LengthMismatch);
        }
        if n > CAPACITY {
            return Err(GraphError::TooManyNodes);
        }

        let mut color_count: usize = 0;
        let mut i: usize = 0;
        while i < n
            invariant
                n == neighbours@.len(),
                node_colors@.len() == n,
                n <= CAPACITY,
                i <= n,
                color_count <= CAPACITY,
                color_count == num_colors(node_colors@.take(i as int)),
                forall|k: int| 0 <= k < i ==> (#[trigger] node_colors@[k]) < CAPACITY,
            decreases n - i,
        {
            let c = node_colors[i];
            if c >= CAPACITY {
                return Err(GraphError::ColorOutOfRange);
            }
            if c + 1 > color_count {
                color_count = c + 1;
            }
            proof {
                assert(node_colors@.take(i + 1).drop_last() =~= node_colors@.take(i as int));
                assert(node_colors@.take(i + 1).last() == node_colors@[i as int]);
            }
            i = i + 1;
        }
        proof {
            assert(node_colors@.take(n as int) =~= node_colors@);
        }

        let ghost rws = rows(neighbours@);
        let mut nbs: Vec<BitSet> = Vec::new();
        let mut i: usize = 0;
        while i < n
            invariant
                n == neighbours@.len(),
                node_colors@.len() == n,
                n <= CAPACITY,
                i <= n,
                rws == rows(neighbours@),
                forall|k: int| 0 <= k < n ==> (#[trigger] node_colors@[k]) < CAPACITY,
                nbs@.len() == i,
                forall|k: int| 0 <= k < i ==> (#[trigger] nbs@[k]).wf(),
                forall|k: int| 0 <= k < i ==> (#[trigger] nbs@[k])@ == neighbour_bits(rws, k),
                forall|k: int, j: int| 0 <= k < i && 0 <= j < rws[k].len()
                    ==> (#[trigger] rws[k][j]) < n,
            decreases n - i,
        {
            let row_len = neighbours[i].len();
            let mut b = BitSet::new();
            let mut j: usize = 0;
            while j < row_len
                invariant
                    n == neighbours@.len(),
                    node_colors@.len() == n,
                    n <= CAPACITY,
                    forall|k: int| 0 <= k < n ==> (#[trigger] node_colors@[k]) < CAPACITY,
                    i < n,
                    j <= row_len,
                    rws == rows(neighbours@),
                    row_len == rws[i as int].len(),
                    b.wf(),
                    forall|jj: int| 0 <= jj < j ==> (#[trigger] rws[i as int][jj]) < n,
                    forall|m: int| 0 <= m < CAPACITY ==> (b@[m] <==> exists|jj: int|
                        0 <= jj < j && (#[trigger] rws[i as int][jj]) == m),
                decreases row_len - j,
            {
                let m = neighbours[i][j];
                if m >= n {
                    proof {
                        assert(rws[i as int][j as int] == m);
                    }
                    return Err(GraphError::NeighbourOutOfRange);
                }
                let ghost prevb = b@;
                b.set(m);
                proof {
                    assert forall|mm: int| 0 <= mm < CAPACITY implies (b@[mm] <==> exists|jj: int|
                        0 <= jj < j + 1 && (#[trigger] rws[i as int][jj]) == mm) by {
                        if mm == m {
                            assert(rws[i as int][j as int] == mm);
                            assert(b@[mm]);
                        } else {
                            assert(b@[mm] == prevb[mm]);
                            if exists|jj: int| 0 <= jj < j + 1 && (#[trigger] rws[i as int][jj]) == mm {
                                let jj = choose|jj: int| 0 <= jj < j + 1 && (#[trigger] rws[i as int][jj]) == mm;
                                assert(jj != j);
                                assert(0 <= jj < j && rws[i as int][jj] == mm);
                            }
                        }
                    }
                }
                j = j + 1;
            }
            proof {
                assert forall|m: int| 0 <= m < CAPACITY implies
                    b@[m] == neighbour_bits(rws, i as int)[m] by {
                    if b@[m] {
                        let jj = choose|jj: int| 0 <= jj < j && (#[trigger] rws[i as int][jj]) == m;
                        assert(0 <= jj < rws[i as int].len() && rws[i as int][jj] == m);
                        assert(neighbour_bits(rws, i as int)[m]);
                    } else {
                        if neighbour_bits(rws, i as int)[m] {
                            let jj = choose|jj: int| 0 <= jj < rws[i as int].len()
                                && (#[trigger] rws[i as int][jj]) == m;
                            assert(0 <= jj < j && rws[i as int][jj] == m);
                        }
                    }
                }
                assert(b@ =~= neighbour_bits(rws, i as int));
            }
            nbs.push(b);
            i = i + 1;
        }

        let mut cols_vec: Vec<BitSet> = Vec::new();
        let mut c: usize = 0;
        while c < color_count
            invariant
                n == neighbours@.len(),
                node_colors@.len() == n,
                n <= CAPACITY,
                color_count <= CAPACITY,
                c <= color_count,
                cols_vec@.len() == c,
                forall|k: int| 0 <= k < c ==> (#[trigger] cols_vec@[k]).wf(),
                forall|k: int| 0 <= k < c ==> (#[trigger] cols_vec@[k])@ == color_bits(node_colors@, k),
            decreases color_count - c,
        {
            let mut b = BitSet::new();
            let mut node: usize = 0;
            while node < n
                invariant
                    n == neighbours@.len(),
                    node_colors@.len() == n,
                    n <= CAPACITY,
                    node <= n,
                    b.wf(),
                    forall|m: int| 0 <= m < CAPACITY ==> (b@[m] <==> (0 <= m < node && node_colors@[m] == c)),
                decreases n - node,
            {
                let ghost prev = b@;
                if node_colors[node] == c {
                    b.set(node);
                }
                proof {
                    assert forall|m: int| 0 <= m < CAPACITY implies
                        (b@[m] <==> (0 <= m < node + 1 && node_colors@[m] == c)) by {
                        if m != node {
                            assert(b@[m] == prev[m]);
                        }
                    }
                }
                node = node + 1;
            }
            proof {
                assert forall|m: int| 0 <= m < CAPACITY implies
                    b@[m] == color_bits(node_colors@, c as int)[m] by {}
                assert(b@ =~= color_bits(node_colors@, c as int));
            }
            cols_vec.push(b);
            c = c + 1;
        }

        let g = Graph { neighbours: nbs, colors: cols_vec };
        proof {
            lemma_num_colors_bound(node_colors@);
            assert(g.nbrs().len() == n);
            assert(g.cols().len() == color_count);
            assert forall|k: int| 0 <= k < n implies g.nbrs()[k] == neighbour_bits(rws, k) by {
                assert(g.nbrs()[k] == nbs@[k]@);
            }
            assert forall|k: int| 0 <= k < color_count implies g.cols()[k] == color_bits(node_colors@, k) by {
                assert(g.cols()[k] == cols_vec@[k]@);
            }
            assert forall|nn: int, m: int| #[trigger] g.adj(nn, m) implies 0 <= m < g.node_count_spec() by {
                assert(g.nbrs()[nn] == neighbour_bits(rws, nn));
                let j = choose|j: int| 0 <= j < rws[nn].len() && rws[nn][j] == m;
                assert(rws[nn][j] < n);
            }
            assert forall|cc: int, nn: int| #[trigger] g.in_class(cc, nn) implies 0 <= nn < g.node_count_spec() by {
                assert(g.cols()[cc] == color_bits(node_colors@, cc));
            }
            assert forall|nn: int| 0 <= nn < g.node_count_spec() implies #[trigger] g.has_color(nn) by {
                let cc = node_colors@[nn] as int;
                assert(g.cols()[cc] == color_bits(node_colors@, cc));
                assert(color_bits(node_colors@, cc)[nn]);
                assert(g.in_class(cc, nn));
            }
            assert forall|c1: int, c2: int, nn: int| g.in_class(c1, nn) && g.in_class(c2, nn) implies c1 == c2 by {
                assert(g.cols()[c1] == color_bits(node_colors@, c1));
                assert(g.cols()[c2] == color_bits(node_colors@, c2));
            }
        }
        Ok(g)
    }
}

/// Two graphs built from the same accepted description carry identical
/// adjacency and color bit-sets: construction is deterministic.
pub proof fn lemma_construction_idempotent(
    g1: Graph,
    g2: Graph,
    neighbours: Seq<Seq<usize>>,
    node_colors: Seq<usize>,
)
    requires
        g1.node_count_spec() == neighbours.len(),
        g2.node_count_spec() == neighbours.len(),
        g1.color_count_spec() == num_colors(node_colors),
        g2.color_count_spec() == num_colors(node_colors),
        forall|i: int| 0 <= i < neighbours.len() ==> g1.nbrs()[i] == neighbour_bits(neighbours, i),
        forall|i: int| 0 <= i < neighbours.len() ==> g2.nbrs()[i] == neighbour_bits(neighbours, i),
        forall|c: int| 0 <= c < num_colors(node_colors) ==> g1.cols()[c] == color_bits(node_colors, c),
        forall|c: int| 0 <= c < num_colors(node_colors) ==> g2.cols()[c] == color_bits(node_colors, c),
    ensures
        g1.nbrs() == g2.nbrs(),
        g1.cols() == g2.cols(),
{
    assert forall|i: int| 0 <= i < neighbours.len() implies g1.nbrs()[i] == g2.nbrs()[i] by {
        assert(g1.nbrs()[i] == neighbour_bits(neighbours, i));
        assert(g2.nbrs()[i] == neighbour_bits(neighbours, i));
    }
    assert forall|c: int| 0 <= c < num_colors(node_colors) implies g1.cols()[c] == g2.cols()[c] by {
        assert(g1.cols()[c] == color_bits(node_colors, c));
        assert(g2.cols()[c] == color_bits(node_colors, c));
    }
    assert(g1.nbrs() =~= g2.nbrs());
    assert(g1.cols() =~= g2.cols());
}

} // verus!
