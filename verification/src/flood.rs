use vstd::prelude::*;
use crate::bitset::{CAPACITY, bits_union, empty_bits, count_trues, lemma_count_trues_pointwise,
    lemma_count_trues_support};
use crate::graph::Graph;

verus! {

broadcast use crate::bitset::lemma_bitset_view_len;

/// A flooded-region view: `CAPACITY` membership bits, all inside the node set.
pub open spec fn flooded_wf(g: Graph, f: Seq<bool>) -> bool {
    &&& f.len() == CAPACITY
    &&& forall|i: int| 0 <= i < CAPACITY && #[trigger] f[i] ==> i < g.node_count_spec()
}

/// Node `n` has a neighbour inside the region `f`.
pub open spec fn touches_flooded(g: Graph, n: int, f: Seq<bool>) -> bool {
    exists|m: int| 0 <= m < CAPACITY && #[trigger] f[m] && g.adj(n, m)
}

/// The nodes a move of color `c` newly absorbs into region `f`: unflooded
/// nodes of color `c` with a neighbour in the region.
pub open spec fn newly_flooded_bits(g: Graph, f: Seq<bool>, c: int) -> Seq<bool> {
    Seq::new(CAPACITY as nat, |n: int| g.in_class(c, n) && !f[n] && touches_flooded(g, n, f))
}

/// The region after one move of color `c`.
pub open spec fn flood_step(g: Graph, f: Seq<bool>, c: int) -> Seq<bool> {
    bits_union(f, newly_flooded_bits(g, f, c))
}

/// The region after a whole sequence of moves.
pub open spec fn apply_moves(g: Graph, f: Seq<bool>, ms: Seq<usize>) -> Seq<bool>
    decreases ms.len(),
{
    if ms.len() == 0 {
        f
    } else {
        apply_moves(g, flood_step(g, f, ms[0] as int), ms.subrange(1, ms.len() as int))
    }
}

/// Every node of the graph lies in the region.
pub open spec fn is_full(g: Graph, f: Seq<bool>) -> bool {
    forall|n: int| 0 <= n < g.node_count_spec() ==> #[trigger] f[n]
}

/// No move repeats the color of the move just before it.
pub open spec fn no_repeats(ms: Seq<usize>) -> bool {
    forall|i: int| 0 <= i < ms.len() - 1 ==> (#[trigger] ms[i]) != ms[i + 1]
}

/// The initial region: the start node alone.
pub open spec fn start_bits(start: int) -> Seq<bool> {
    empty_bits().update(start, true)
}

/// Color class `c` still has a node outside the region.
pub open spec fn class_has_unflooded(g: Graph, f: Seq<bool>, c: int) -> bool {
    exists|n: int| #[trigger] g.in_class(c, n) && !f[n]
}

/// How many of the first `k` color classes still have an unflooded node.
pub open spec fn count_unflooded_spec(g: Graph, f: Seq<bool>, k: int) -> nat
    decreases k,
{
    if k <= 0 {
        0
    } else {
        count_unflooded_spec(g, f, k - 1)
            + if class_has_unflooded(g, f, k - 1) { 1nat } else { 0nat }
    }
}

/// Adjacent nodes never share a color class. Graphs fed to the solver are
/// region graphs of a board, where this holds by construction; on such a
/// graph one flooding layer already absorbs everything reachable at that
/// color.
pub open spec fn proper_coloring(g: Graph) -> bool {
    forall|c: int, n: int, m: int|
        #[trigger] g.in_class(c, n) && #[trigger] g.adj(n, m) ==> !g.in_class(c, m)
}

/// A flooding step keeps the region inside the node set.
pub proof fn lemma_flood_step_wf(g: Graph, f: Seq<bool>, c: int)
    requires
        g.wf(),
        flooded_wf(g, f),
    ensures
        flooded_wf(g, flood_step(g, f, c)),
{
    assert forall|i: int| 0 <= i < CAPACITY && #[trigger] flood_step(g, f, c)[i]
        implies i < g.node_count_spec() by {
        if !f[i] {
            assert(newly_flooded_bits(g, f, c)[i]);
            assert(g.in_class(c, i));
        }
    }
}

/// Flooding a move sequence keeps the region inside the node set.
pub proof fn lemma_apply_moves_wf(g: Graph, f: Seq<bool>, ms: Seq<usize>)
    requires
        g.wf(),
        flooded_wf(g, f),
    ensures
        flooded_wf(g, apply_moves(g, f, ms)),
    decreases ms.len(),
{
    if ms.len() > 0 {
        lemma_flood_step_wf(g, f, ms[0] as int);
        lemma_apply_moves_wf(g, flood_step(g, f, ms[0] as int), ms.subrange(1, ms.len() as int));
    }
}

/// On a properly colored graph one flooding layer is already a fixpoint:
/// applying the same color again absorbs nothing new.
pub proof fn lemma_flood_step_idempotent(g: Graph, f: Seq<bool>, c: int)
    requires
        g.wf(),
        proper_coloring(g),
        f.len() == CAPACITY,
    ensures
        flood_step(g, flood_step(g, f, c), c) == flood_step(g, f, c),
{
    let f1 = flood_step(g, f, c);
    assert forall|n: int| 0 <= n < CAPACITY implies !(newly_flooded_bits(g, f1, c)[n]) by {
        if g.in_class(c, n) && !f1[n] && touches_flooded(g, n, f1) {
            let m = choose|m: int| 0 <= m < CAPACITY && #[trigger] f1[m] && g.adj(n, m);
            assert(!f[n]);
            if f[m] {
                assert(touches_flooded(g, n, f));
                assert(newly_flooded_bits(g, f, c)[n]);
                assert(f1[n]);
            } else {
                assert(newly_flooded_bits(g, f, c)[m]);
                assert(g.in_class(c, m));
                assert(!g.in_class(c, m));
            }
        }
    }
    assert(flood_step(g, f1, c) =~= f1);
}

/// No sequence of at most `bound - used` further moves completes the flood
/// from region `f`.
pub open spec fn no_extension_completes(g: Graph, f: Seq<bool>, used: int, bound: int) -> bool {
    forall|e: Seq<usize>| used + e.len() <= bound ==> !is_full(g, #[trigger] apply_moves(g, f, e))
}

/// Flooding keeps the region at full width.
pub proof fn lemma_apply_moves_len(g: Graph, f: Seq<bool>, ms: Seq<usize>)
    requires
        f.len() == CAPACITY,
    ensures
        apply_moves(g, f, ms).len() == CAPACITY,
    decreases ms.len(),
{
    if ms.len() > 0 {
        lemma_apply_moves_len(g, flood_step(g, f, ms[0] as int), ms.subrange(1, ms.len() as int));
    }
}

/// Appending one move floods one more step.
pub proof fn lemma_apply_moves_snoc(g: Graph, f: Seq<bool>, ms: Seq<usize>, c: usize)
    ensures
        apply_moves(g, f, ms.push(c)) == flood_step(g, apply_moves(g, f, ms), c as int),
    decreases ms.len(),
{
    if ms.len() == 0 {
        assert(ms.push(c)[0] == c);
        assert(ms.push(c).subrange(1, 1) =~= Seq::<usize>::empty());
        assert(apply_moves(g, f, ms.push(c))
            == apply_moves(g, flood_step(g, f, c as int), Seq::<usize>::empty()));
        assert(apply_moves(g, flood_step(g, f, c as int), Seq::<usize>::empty())
            == flood_step(g, f, c as int));
        assert(apply_moves(g, f, ms) == f);
    } else {
        let ms2 = ms.subrange(1, ms.len() as int);
        assert(ms.push(c)[0] == ms[0]);
        assert(ms.push(c).subrange(1, ms.len() as int + 1) =~= ms2.push(c));
        assert(apply_moves(g, f, ms.push(c))
            == apply_moves(g, flood_step(g, f, ms[0] as int), ms2.push(c)));
        assert(apply_moves(g, f, ms)
            == apply_moves(g, flood_step(g, f, ms[0] as int), ms2));
        lemma_apply_moves_snoc(g, flood_step(g, f, ms[0] as int), ms2, c);
    }
}

/// A move of color `c` is the identity on the region exactly when it
/// absorbs no node.
pub proof fn lemma_step_identity(g: Graph, f: Seq<bool>, c: int)
    requires
        f.len() == CAPACITY,
    ensures
        (flood_step(g, f, c) == f)
            <==> (forall|n: int| 0 <= n < CAPACITY ==> !(#[trigger] newly_flooded_bits(g, f, c)[n])),
{
    if forall|n: int| 0 <= n < CAPACITY ==> !(#[trigger] newly_flooded_bits(g, f, c)[n]) {
        assert(flood_step(g, f, c) =~= f);
    }
    if flood_step(g, f, c) == f {
        assert forall|n: int| 0 <= n < CAPACITY implies !(newly_flooded_bits(g, f, c)[n]) by {
            if newly_flooded_bits(g, f, c)[n] {
                assert(flood_step(g, f, c)[n]);
                assert(!f[n]);
            }
        }
    }
}

/// A color id outside the class range floods nothing.
pub proof fn lemma_step_out_of_range(g: Graph, f: Seq<bool>, c: int)
    requires
        f.len() == CAPACITY,
        c < 0 || c >= g.color_count_spec(),
    ensures
        flood_step(g, f, c) == f,
{
    assert forall|n: int| 0 <= n < CAPACITY implies !(newly_flooded_bits(g, f, c)[n]) by {
        assert(!g.in_class(c, n));
    }
    lemma_step_identity(g, f, c);
}

/// Every move of the sequence absorbs something at its point of play.
pub open spec fn all_productive(g: Graph, f: Seq<bool>, ms: Seq<usize>) -> bool
    decreases ms.len(),
{
    if ms.len() == 0 {
        true
    } else {
        flood_step(g, f, ms[0] as int) != f
            && all_productive(g, flood_step(g, f, ms[0] as int), ms.subrange(1, ms.len() as int))
    }
}

/// The trimmed form of a move sequence: moves that absorb nothing are
/// dropped, the rest are kept in order.
pub open spec fn normalized_moves(g: Graph, f: Seq<bool>, e: Seq<usize>) -> Seq<usize>
    decreases e.len(),
{
    if e.len() == 0 {
        Seq::empty()
    } else {
        let rest = e.subrange(1, e.len() as int);
        if flood_step(g, f, e[0] as int) == f {
            normalized_moves(g, f, rest)
        } else {
            seq![e[0]] + normalized_moves(g, flood_step(g, f, e[0] as int), rest)
        }
    }
}

/// Trimming keeps the outcome and never lengthens; a nonempty trimmed
/// sequence starts with a move that absorbs something.
pub proof fn lemma_normalized_moves(g: Graph, f: Seq<bool>, e: Seq<usize>)
    ensures
        apply_moves(g, f, normalized_moves(g, f, e)) == apply_moves(g, f, e),
        normalized_moves(g, f, e).len() <= e.len(),
        normalized_moves(g, f, e).len() > 0
            ==> flood_step(g, f, normalized_moves(g, f, e)[0] as int) != f,
        all_productive(g, f, normalized_moves(g, f, e)),
    decreases e.len(),
{
    if e.len() > 0 {
        let rest = e.subrange(1, e.len() as int);
        if flood_step(g, f, e[0] as int) == f {
            lemma_normalized_moves(g, f, rest);
        } else {
            let f2 = flood_step(g, f, e[0] as int);
            lemma_normalized_moves(g, f2, rest);
            let nm = seq![e[0]] + normalized_moves(g, f2, rest);
            assert(nm[0] == e[0]);
            assert(nm.subrange(1, nm.len() as int) =~= normalized_moves(g, f2, rest));
            assert(apply_moves(g, f, nm)
                == apply_moves(g, f2, normalized_moves(g, f2, rest)));
        }
    }
}

/// Each productive move strictly grows the region, so a productive
/// sequence adds at least one node per move.
pub proof fn lemma_productive_length(g: Graph, f: Seq<bool>, ms: Seq<usize>)
    requires
        g.wf(),
        flooded_wf(g, f),
        all_productive(g, f, ms),
    ensures
        ms.len() + count_trues(f) <= count_trues(apply_moves(g, f, ms)),
    decreases ms.len(),
{
    if ms.len() > 0 {
        let f2 = flood_step(g, f, ms[0] as int);
        lemma_flood_step_wf(g, f, ms[0] as int);
        if forall|n: int| 0 <= n < CAPACITY ==> #[trigger] f2[n] == f[n] {
            assert(f2 =~= f);
            assert(false);
        }
        let n = choose|n: int| 0 <= n < CAPACITY && !(#[trigger] f2[n] == f[n]);
        assert(f2[n] && !f[n]);
        lemma_count_trues_pointwise(f, f2);
        lemma_productive_length(g, f2, ms.subrange(1, ms.len() as int));
    }
}

/// A covering sequence can always be trimmed to one of at most `node_count`
/// moves: dropping non-absorbing moves keeps the cover, and what is left
/// absorbs at least one node per move.
pub proof fn lemma_cover_within_node_count(g: Graph, start: int, e: Seq<usize>)
    requires
        g.wf(),
        0 <= start < g.node_count_spec(),
        is_full(g, apply_moves(g, start_bits(start), e)),
    ensures
        exists|e2: Seq<usize>| e2.len() <= g.node_count_spec()
            && is_full(g, #[trigger] apply_moves(g, start_bits(start), e2)),
{
    let f = start_bits(start);
    assert forall|i: int| 0 <= i < CAPACITY && #[trigger] f[i]
        implies i < g.node_count_spec() by {
        if i != start {
            assert(!f[i]);
        }
    }
    lemma_normalized_moves(g, f, e);
    let nm = normalized_moves(g, f, e);
    lemma_productive_length(g, f, nm);
    assert(count_trues(f) >= 1) by {
        assert(!empty_bits()[start] && f[start]);
        assert(exists|i: int| 0 <= i < empty_bits().len() && !empty_bits()[i] && #[trigger] f[i]);
        lemma_count_trues_pointwise(empty_bits(), f);
        crate::bitset::lemma_count_trues_zero(empty_bits());
        assert(count_trues(empty_bits()) == 0);
    }
    lemma_apply_moves_wf(g, f, nm);
    lemma_count_trues_support(apply_moves(g, f, nm), g.node_count_spec());
    assert(nm.len() <= g.node_count_spec());
    assert(is_full(g, apply_moves(g, f, nm)));
}

/// After a sequence ending in some color, the region is saturated at that
/// color: playing it again changes nothing.
pub proof fn lemma_saturated_after(g: Graph, f0: Seq<bool>, ms: Seq<usize>)
    requires
        g.wf(),
        proper_coloring(g),
        f0.len() == CAPACITY,
        ms.len() > 0,
    ensures
        flood_step(g, apply_moves(g, f0, ms), ms.last() as int) == apply_moves(g, f0, ms),
{
    let pre = apply_moves(g, f0, ms.drop_last());
    assert(ms.drop_last().push(ms.last()) =~= ms);
    lemma_apply_moves_snoc(g, f0, ms.drop_last(), ms.last());
    lemma_apply_moves_len(g, f0, ms.drop_last());
    lemma_flood_step_idempotent(g, pre, ms.last() as int);
}

/// When no class of the first `k` has an unflooded node, the count is zero.
proof fn lemma_count_unflooded_zero(g: Graph, f: Seq<bool>, k: int)
    requires
        forall|c: int| 0 <= c < k ==> !class_has_unflooded(g, f, c),
    ensures
        count_unflooded_spec(g, f, k) == 0,
    decreases k,
{
    if k > 0 {
        lemma_count_unflooded_zero(g, f, k - 1);
    }
}

/// When every counted class but possibly `c` keeps an unflooded node from
/// `f` to `f2`, the count drops by at most one.
proof fn lemma_count_unflooded_step(g: Graph, f: Seq<bool>, f2: Seq<bool>, c: int, k: int)
    requires
        forall|c2: int| 0 <= c2 < k && c2 != c && class_has_unflooded(g, f, c2)
            ==> class_has_unflooded(g, f2, c2),
    ensures
        count_unflooded_spec(g, f, k)
            <= count_unflooded_spec(g, f2, k) + if 0 <= c < k { 1int } else { 0int },
    decreases k,
{
    if k > 0 {
        lemma_count_unflooded_step(g, f, f2, c, k - 1);
    }
}

/// Lower-bound admissibility: a move sequence that completes the flood from
/// region `f` is at least as long as the number of color classes that still
/// have an unflooded node at `f`. One move floods nodes of one color only,
/// so every such class costs a move.
pub proof fn lemma_lower_bound_admissible(g: Graph, f: Seq<bool>, ms: Seq<usize>)
    requires
        g.wf(),
        f.len() == CAPACITY,
        is_full(g, apply_moves(g, f, ms)),
    ensures
        count_unflooded_spec(g, f, g.color_count_spec()) <= ms.len(),
    decreases ms.len(),
{
    let cc = g.color_count_spec();
    if ms.len() == 0 {
        assert forall|c: int| 0 <= c < cc implies !class_has_unflooded(g, f, c) by {
            if class_has_unflooded(g, f, c) {
                let n = choose|n: int| #[trigger] g.in_class(c, n) && !f[n];
                assert(0 <= n < g.node_count_spec());
                assert(f[n]);
            }
        }
        lemma_count_unflooded_zero(g, f, cc);
    } else {
        let c = ms[0] as int;
        let f2 = flood_step(g, f, c);
        lemma_lower_bound_admissible(g, f2, ms.subrange(1, ms.len() as int));
        assert forall|c2: int| 0 <= c2 < cc && c2 != c && class_has_unflooded(g, f, c2)
            implies class_has_unflooded(g, f2, c2) by {
            let n = choose|n: int| #[trigger] g.in_class(c2, n) && !f[n];
            assert(0 <= n < g.node_count_spec());
            if newly_flooded_bits(g, f, c)[n] {
                assert(g.in_class(c, n));
                assert(c == c2);
            }
            assert(!f2[n]);
        }
        lemma_count_unflooded_step(g, f, f2, c, cc);
    }
}

} // verus!
