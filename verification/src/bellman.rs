//! The Bellman-Ford engine: iterative relaxation across vertices for up to
//! |V| rounds, building an iteration-by-vertex distance table and detecting
//! negative cycles.
//!
//! The specification layer defines the relaxation recurrence exactly: row 0
//! seeds the start vertex with distance 0, and row k relaxes every vertex
//! over its incoming edges against row k-1.  The engine's contract states
//! that the computed table follows this recurrence, that iteration stops at
//! the first converged row, and that the negative-cycle flag is set exactly
//! when the final permitted iteration still changed a distance.

use crate::dirgraph::DirectedGraph;
use crate::disttable::DistTable;
use crate::minmax::MinMax;
use crate::minmax::mm_int;
use crate::minmax::mm_lt;
use vstd::prelude::*;

verus! {

/// Bound on the vertex-id space of graphs the engines accept; keeps every
/// distance sum comfortably inside `i64`.
pub const MAX_TABLE_WIDTH: usize = 100000;

/// Bound on the magnitude of an edge weight accepted by the Bellman-Ford
/// engine; together with `MAX_TABLE_WIDTH` it keeps sums inside `i64`.
pub const MAX_EDGE_WEIGHT: i64 = 100000000;

/// Every vertex id in the graph lies below `width`, so ids can index the
/// table directly.
pub open spec fn ids_below(g: DirectedGraph, width: usize) -> bool {
    forall|v: usize| #[trigger] g.has_vertex(v) ==> v < width
}

/// Every edge weight has magnitude at most `bound`.
pub open spec fn weights_bounded(g: DirectedGraph, bound: i64) -> bool {
    forall|e: usize| #[trigger] g.has_edge(e) ==> -bound <= g.edge_of(e).weight <= bound
}

/// The candidate a single incoming edge contributes against the previous
/// row: the source's finite distance plus the edge weight, tagged with the
/// source id; `None` when the source is still unreached.
pub open spec fn edge_candidate(g: DirectedGraph, prev: Seq<MinMax<int>>, eid: usize) -> Option<
    (MinMax<int>, usize),
> {
    let e = g.edge_of(eid);
    if e.source < prev.len() && prev[e.source as int] is Value {
        Some((MinMax::Value(prev[e.source as int]->Value_0 + e.weight), e.source))
    } else {
        None
    }
}

/// Lexicographic order on candidates: by distance, ties by source id.
pub open spec fn cand_lt(a: (MinMax<int>, usize), b: (MinMax<int>, usize)) -> bool {
    mm_lt(a.0, b.0) || (a.0 == b.0 && a.1 < b.1)
}

/// The smaller of two optional candidates; on equality the first is kept.
pub open spec fn cand_min2(
    a: Option<(MinMax<int>, usize)>,
    b: Option<(MinMax<int>, usize)>,
) -> Option<(MinMax<int>, usize)> {
    match (a, b) {
        (Option::None, _) => b,
        (_, Option::None) => a,
        (Option::Some(x), Option::Some(y)) => if cand_lt(y, x) {
            Some(y)
        } else {
            Some(x)
        },
    }
}

/// The minimum candidate over the first `n` incoming edge ids.
pub open spec fn min_candidate_prefix(
    g: DirectedGraph,
    prev: Seq<MinMax<int>>,
    ids: Seq<usize>,
    n: int,
) -> Option<(MinMax<int>, usize)>
    decreases n,
{
    if n <= 0 {
        None
    } else {
        cand_min2(min_candidate_prefix(g, prev, ids, n - 1), edge_candidate(g, prev, ids[n - 1]))
    }
}

/// The minimum candidate a vertex receives over all its incoming edges.
pub open spec fn min_candidate(g: DirectedGraph, prev: Seq<MinMax<int>>, v: usize) -> Option<
    (MinMax<int>, usize),
> {
    min_candidate_prefix(g, prev, g.incoming_ids(v), g.incoming_ids(v).len() as int)
}

/// One vertex's distance after relaxation: the minimum candidate if it
/// strictly improves on the previous value, the previous value otherwise.
pub open spec fn relaxed_value(g: DirectedGraph, prev: Seq<MinMax<int>>, v: usize) -> MinMax<
    int,
> {
    match min_candidate(g, prev, v) {
        Option::None => prev[v as int],
        Option::Some((m, s)) => if mm_lt(m, prev[v as int]) {
            m
        } else {
            prev[v as int]
        },
    }
}

/// One vertex's predecessor after relaxation: the minimum candidate's
/// source on a strict improvement, the previous predecessor otherwise.
pub open spec fn relaxed_pred(
    g: DirectedGraph,
    prev: Seq<MinMax<int>>,
    preds: Seq<MinMax<usize>>,
    v: usize,
) -> MinMax<usize> {
    match min_candidate(g, prev, v) {
        Option::None => preds[v as int],
        Option::Some((m, s)) => if mm_lt(m, prev[v as int]) {
            MinMax::Value(s)
        } else {
            preds[v as int]
        },
    }
}

/// One full relaxation sweep: graph vertices are relaxed, other table slots
/// carry their previous value forward.
pub open spec fn next_row(g: DirectedGraph, prev: Seq<MinMax<int>>) -> Seq<MinMax<int>> {
    Seq::new(
        prev.len(),
        |v: int|
            if g.has_vertex(v as usize) {
                relaxed_value(g, prev, v as usize)
            } else {
                prev[v]
            },
    )
}

/// Predecessors after one full relaxation sweep.
pub open spec fn next_preds(
    g: DirectedGraph,
    prev: Seq<MinMax<int>>,
    preds: Seq<MinMax<usize>>,
) -> Seq<MinMax<usize>> {
    Seq::new(
        preds.len(),
        |v: int|
            if g.has_vertex(v as usize) {
                relaxed_pred(g, prev, preds, v as usize)
            } else {
                preds[v]
            },
    )
}

/// Iteration 0: the start vertex at distance 0, everything else unreached.
pub open spec fn init_row(width: nat, s: usize) -> Seq<MinMax<int>> {
    Seq::new(
        width,
        |v: int|
            if v == s {
                MinMax::Value(0)
            } else {
                MinMax::Max
            },
    )
}

/// The distance row after `k` relaxation sweeps from start vertex `s`.
pub open spec fn bf_row(g: DirectedGraph, s: usize, width: nat, k: nat) -> Seq<MinMax<int>>
    decreases k,
{
    if k == 0 {
        init_row(width, s)
    } else {
        next_row(g, bf_row(g, s, width, (k - 1) as nat))
    }
}

/// The predecessor row after `k` relaxation sweeps from start vertex `s`.
pub open spec fn bf_preds(g: DirectedGraph, s: usize, width: nat, k: nat) -> Seq<MinMax<usize>>
    decreases k,
{
    if k == 0 {
        Seq::new(width, |v: int| MinMax::NA)
    } else {
        next_preds(
            g,
            bf_row(g, s, width, (k - 1) as nat),
            bf_preds(g, s, width, (k - 1) as nat),
        )
    }
}

/// Iteration `k` changed nothing: its row equals the previous one.
pub open spec fn converged_at(g: DirectedGraph, s: usize, width: nat, k: int) -> bool {
    bf_row(g, s, width, k as nat) == bf_row(g, s, width, (k - 1) as nat)
}

/// A minimum candidate, when present, is the candidate of one of the first
/// `n` incoming edges.
pub proof fn lemma_min_cand_witness(
    g: DirectedGraph,
    prev: Seq<MinMax<int>>,
    ids: Seq<usize>,
    n: int,
)
    requires
        n <= ids.len(),
    ensures
        min_candidate_prefix(g, prev, ids, n) matches Some(c) ==> exists|j: int|
            0 <= j < n && edge_candidate(g, prev, #[trigger] ids[j]) == Some(c),
    decreases n,
{
    if n > 0 {
        lemma_min_cand_witness(g, prev, ids, n - 1);
        match min_candidate_prefix(g, prev, ids, n) {
            Option::Some(c) => {
                let a = min_candidate_prefix(g, prev, ids, n - 1);
                let b = edge_candidate(g, prev, ids[n - 1]);
                if b == Some(c) {
                    assert(edge_candidate(g, prev, ids[n - 1]) == Some(c));
                } else {
                    assert(a == Some(c));
                    let j = choose|j: int|
                        0 <= j < n - 1 && edge_candidate(g, prev, #[trigger] ids[j]) == Some(c);
                    assert(edge_candidate(g, prev, ids[j]) == Some(c));
                }
            },
            Option::None => {},
        }
    }
}

/// Rows and predecessor tables keep the table width at every iteration.
pub proof fn lemma_row_len(g: DirectedGraph, s: usize, width: nat, k: nat)
    ensures
        bf_row(g, s, width, k).len() == width,
        bf_preds(g, s, width, k).len() == width,
    decreases k,
{
    if k > 0 {
        lemma_row_len(g, s, width, (k - 1) as nat);
    }
}

/// Every finite distance in row `k` has magnitude at most
/// `k * MAX_EDGE_WEIGHT`, provided the graph respects the bounds.
pub proof fn lemma_row_bound(g: DirectedGraph, s: usize, width: nat, k: nat)
    requires
        g.wf(),
        weights_bounded(g, MAX_EDGE_WEIGHT),
        width <= MAX_TABLE_WIDTH,
        ids_below(g, width as usize),
    ensures
        forall|v: int|
            0 <= v < width && #[trigger] bf_row(g, s, width, k)[v] is Value ==> -(k as int)
                * MAX_EDGE_WEIGHT <= bf_row(g, s, width, k)[v]->Value_0 <= (k as int)
                * MAX_EDGE_WEIGHT,
    decreases k,
{
    lemma_row_len(g, s, width, k);
    if k == 0 {
    } else {
        let km1 = (k - 1) as nat;
        lemma_row_bound(g, s, width, km1);
        lemma_row_len(g, s, width, km1);
        let prev = bf_row(g, s, width, km1);
        let cur = bf_row(g, s, width, k);
        assert(cur == next_row(g, prev));
        assert((km1 as int) * MAX_EDGE_WEIGHT + MAX_EDGE_WEIGHT == (k as int) * MAX_EDGE_WEIGHT)
            by (nonlinear_arith)
            requires
                km1 as int == k as int - 1,
        ;
        assert((km1 as int) * MAX_EDGE_WEIGHT <= (k as int) * MAX_EDGE_WEIGHT)
            by (nonlinear_arith)
            requires
                km1 as int == k as int - 1,
                MAX_EDGE_WEIGHT > 0,
        ;
        assert(-((k as int) * MAX_EDGE_WEIGHT) <= -((km1 as int) * MAX_EDGE_WEIGHT));
        assert forall|v: int|
            0 <= v < width && #[trigger] cur[v] is Value implies -(k as int) * MAX_EDGE_WEIGHT
            <= cur[v]->Value_0 <= (k as int) * MAX_EDGE_WEIGHT by {
            let vu = v as usize;
            assert(vu as int == v);
            if g.has_vertex(vu) {
                assert(cur[v] == relaxed_value(g, prev, vu));
                match min_candidate(g, prev, vu) {
                    Option::None => {
                        assert(cur[v] == prev[v]);
                    },
                    Option::Some((m, src)) => {
                        if mm_lt(m, prev[v]) {
                            assert(cur[v] == m);
                            let ids = g.incoming_ids(vu);
                            lemma_min_cand_witness(g, prev, ids, ids.len() as int);
                            let j = choose|j: int|
                                0 <= j < ids.len() && edge_candidate(g, prev, #[trigger] ids[j])
                                    == Some((m, src));
                            let eid = ids[j];
                            let vi = g.vindex(vu);
                            g.lemma_vindex(vu, vi);
                            assert(g.vertex_map@[vi].incoming@[j] == eid);
                            assert(g.has_edge(eid));
                            let e = g.edge_of(eid);
                            assert(-MAX_EDGE_WEIGHT <= e.weight <= MAX_EDGE_WEIGHT);
                            assert(prev[e.source as int] is Value);
                            assert(g.has_vertex(e.source));
                            assert(e.source < width);
                            assert(-(km1 as int) * MAX_EDGE_WEIGHT <= prev[e.source as int]->Value_0
                                <= (km1 as int) * MAX_EDGE_WEIGHT);
                            assert(m->Value_0 == prev[e.source as int]->Value_0 + e.weight);
                        } else {
                            assert(cur[v] == prev[v]);
                        }
                    },
                }
            } else {
                assert(cur[v] == prev[v]);
            }
        }
    }
}

/// Once a row equals its predecessor, every later row and predecessor table
/// stays at that fixpoint.
pub proof fn lemma_fixpoint_persists(g: DirectedGraph, s: usize, width: nat, k: nat, m: nat)
    requires
        k >= 1,
        bf_row(g, s, width, k) == bf_row(g, s, width, (k - 1) as nat),
        m >= k,
    ensures
        bf_row(g, s, width, m) == bf_row(g, s, width, (k - 1) as nat),
        bf_preds(g, s, width, m) == bf_preds(g, s, width, k),
    decreases m - k,
{
    if m == k {
    } else {
        lemma_fixpoint_persists(g, s, width, k, (m - 1) as nat);
        assert(bf_row(g, s, width, m) == next_row(g, bf_row(g, s, width, (m - 1) as nat)));
        assert(bf_row(g, s, width, k) == next_row(g, bf_row(g, s, width, (k - 1) as nat)));
        if m - 1 == k {
            lemma_preds_stable(g, s, width, k);
        } else {
            lemma_fixpoint_persists(g, s, width, k, (m - 2) as nat);
            lemma_preds_stable(g, s, width, (m - 1) as nat);
        }
    }
}

/// At a fixpoint row, a relaxation sweep leaves the predecessors unchanged.
proof fn lemma_preds_stable(g: DirectedGraph, s: usize, width: nat, j: nat)
    requires
        j >= 1,
        bf_row(g, s, width, j) == bf_row(g, s, width, (j - 1) as nat),
    ensures
        bf_preds(g, s, width, (j + 1) as nat) == bf_preds(g, s, width, j),
{
    lemma_row_len(g, s, width, j);
    lemma_row_len(g, s, width, (j - 1) as nat);
    let prev = bf_row(g, s, width, (j - 1) as nat);
    let rowj = bf_row(g, s, width, j);
    let rowj1 = bf_row(g, s, width, (j + 1) as nat);
    let predsj = bf_preds(g, s, width, j);
    let predsj1 = bf_preds(g, s, width, (j + 1) as nat);
    assert(rowj == next_row(g, prev));
    assert(rowj1 == next_row(g, rowj));
    assert(predsj1 == next_preds(g, rowj, predsj));
    assert(rowj1 == rowj);
    assert forall|v: int| 0 <= v < predsj.len() implies predsj1[v] == predsj[v] by {
        let vu = v as usize;
        if g.has_vertex(vu) {
            assert(predsj1[v] == relaxed_pred(g, rowj, predsj, vu));
            match min_candidate(g, rowj, vu) {
                Option::None => {},
                Option::Some((m, src)) => {
                    if mm_lt(m, rowj[v]) {
                        assert(rowj1[v] == relaxed_value(g, rowj, vu));
                        assert(rowj1[v] == m);
                        assert(rowj1[v] == rowj[v]);
                        assert(mm_lt(rowj[v], rowj[v]));
                        assert(false);
                    }
                },
            }
        }
    }
    assert(predsj1 =~= predsj);
}


/// An executable candidate lifted to its mathematical counterpart.
pub open spec fn lift_cand(c: Option<(MinMax<i64>, usize)>) -> Option<(MinMax<int>, usize)> {
    match c {
        Option::None => None,
        Option::Some((m, s)) => Some((mm_int(m), s)),
    }
}

/// `mm_int` is injective: machine values agree exactly when their
/// mathematical counterparts do.
pub proof fn lemma_mm_int_injective(a: MinMax<i64>, b: MinMax<i64>)
    ensures
        (mm_int(a) == mm_int(b)) == (a == b),
{
}

/// The Bellman-Ford engine: the iteration-by-vertex distance table, the
/// predecessor map, and the negative-cycle flag.
pub struct Bellman {
    /// Cell `(v, k)` holds vertex `v`'s distance at iteration `k`.
    pub distances: DistTable,
    /// For each vertex the preceding vertex on the current best path;
    /// `NA` means none recorded.
    pub predecessor: Vec<MinMax<usize>>,
    /// Table width: one more than the constructor argument, so vertex ids
    /// starting at 1 index the table directly; slot 0 serves the synthetic
    /// super-source.
    pub num_vertex: usize,
    /// Number of permitted iterations; equal to the table width, which is
    /// enough to detect negative cycles.
    pub iterations: usize,
    /// The last iteration that was actually computed.
    pub last_iteration: usize,
    pub starting_vertex: usize,
    pub found_negative_cycle: bool,
}

impl Bellman {
    pub open spec fn wf(self) -> bool {
        &&& self.distances.wf()
        &&& self.distances.width == self.num_vertex
        &&& self.distances.height() == self.iterations
        &&& self.iterations == self.num_vertex
        &&& self.num_vertex >= 1
        &&& self.predecessor@.len() == self.num_vertex
        &&& self.last_iteration < self.iterations
    }

    pub open spec fn width(self) -> nat {
        self.num_vertex as nat
    }

    /// A freshly built engine: empty table, no predecessors, no flag.
    pub open spec fn is_fresh(self) -> bool {
        &&& self.wf()
        &&& self.last_iteration == 0
        &&& !self.found_negative_cycle
        &&& forall|x: int, y: int|
            0 <= x < self.num_vertex && 0 <= y < self.iterations ==> self.distances.at(x, y)
                == MinMax::<i64>::Max
        &&& forall|v: int|
            0 <= v < self.num_vertex ==> self.predecessor@[v] == MinMax::<usize>::NA
    }

    /// Table row `k`, read as mathematical values.
    pub open spec fn table_row(self, k: int) -> Seq<MinMax<int>> {
        Seq::new(self.num_vertex as nat, |x: int| mm_int(self.distances.at(x, k)))
    }

    /// The engine's result characterisation: every stored row follows the
    /// relaxation recurrence, iteration stopped at the first converged row
    /// (or at the last permitted one), the predecessor map matches the
    /// recurrence at the stopping point, and the negative-cycle flag is set
    /// exactly when the final permitted iteration still changed a distance.
    pub open spec fn computed(self, g: DirectedGraph, s: usize) -> bool {
        let width = self.num_vertex as nat;
        let n = self.iterations as int;
        &&& self.wf()
        &&& self.starting_vertex == s
        &&& (n > 1 ==> 1 <= self.last_iteration)
        &&& (n == 1 ==> self.last_iteration == 0)
        &&& forall|k: int|
            0 <= k <= self.last_iteration ==> self.table_row(k) == bf_row(g, s, width, k as nat)
        &&& self.predecessor@ == bf_preds(g, s, width, self.last_iteration as nat)
        &&& forall|j: int| 1 <= j < self.last_iteration ==> !#[trigger] converged_at(g, s, width, j)
        &&& (self.last_iteration < n - 1 ==> converged_at(g, s, width, self.last_iteration as int))
        &&& self.found_negative_cycle == (n >= 2 && !converged_at(g, s, width, n - 1))
    }

    /// A fresh engine sized for vertex ids `0..=num_vertex`.
    pub fn new(num_vertex: usize) -> (b: Bellman)
        requires
            num_vertex < usize::MAX,
        ensures
            b.is_fresh(),
            b.num_vertex == num_vertex + 1,
            b.iterations == num_vertex + 1,
            b.starting_vertex == 0,
    {
        let width = num_vertex + 1;
        let mut preceeding: Vec<MinMax<usize>> = Vec::new();
        let mut id: usize = 0;
        while id < width
            invariant
                id <= width,
                preceeding@.len() == id,
                forall|v: int| 0 <= v < id ==> preceeding@[v] == MinMax::<usize>::NA,
            decreases width - id,
        {
            preceeding.push(MinMax::NA);
            id = id + 1;
        }
        Bellman {
            distances: DistTable::new(width, width, MinMax::Max),
            predecessor: preceeding,
            num_vertex: width,
            iterations: width,
            last_iteration: 0,
            starting_vertex: 0,
            found_negative_cycle: false,
        }
    }

    pub fn has_negative_cycle(&self) -> (r: bool)
        ensures
            r == self.found_negative_cycle,
    {
        self.found_negative_cycle
    }
}


/// Positions of non-vertices never leave `Max`: only graph vertices are
/// ever relaxed, and only the (existing) start vertex is seeded.
proof fn lemma_nonvertex_max(g: DirectedGraph, s: usize, width: nat, k: nat)
    requires
        g.has_vertex(s),
    ensures
        forall|x: int|
            0 <= x < width && !g.has_vertex(x as usize) ==> #[trigger] bf_row(g, s, width, k)[x]
                == MinMax::<int>::Max,
    decreases k,
{
    lemma_row_len(g, s, width, k);
    if k > 0 {
        lemma_nonvertex_max(g, s, width, (k - 1) as nat);
        lemma_row_len(g, s, width, (k - 1) as nat);
    }
}

impl Bellman {
    /// One relaxation sweep: computes iteration `iteration`'s row and
    /// predecessor updates from the previous row, and reports whether any
    /// distance changed.
    #[verifier::rlimit(60)]
    fn relax_sweep(&mut self, graph: &DirectedGraph, starting_vertex: usize, iteration: usize)
        -> (changes: bool)
        requires
            old(self).wf(),
            graph.wf(),
            graph.has_vertex(starting_vertex),
            ids_below(*graph, old(self).num_vertex),
            weights_bounded(*graph, MAX_EDGE_WEIGHT),
            old(self).num_vertex <= MAX_TABLE_WIDTH,
            1 <= iteration < old(self).iterations,
            forall|k: int|
                0 <= k <= iteration - 1 ==> #[trigger] old(self).table_row(k) == bf_row(
                    *graph,
                    starting_vertex,
                    old(self).num_vertex as nat,
                    k as nat,
                ),
            forall|x: int, y: int|
                0 <= x < old(self).num_vertex && iteration - 1 < y < old(self).iterations
                    ==> #[trigger] old(self).distances.at(x, y) == MinMax::<i64>::Max,
            old(self).predecessor@ == bf_preds(
                *graph,
                starting_vertex,
                old(self).num_vertex as nat,
                (iteration - 1) as nat,
            ),
        ensures
            final(self).wf(),
            final(self).num_vertex == old(self).num_vertex,
            final(self).iterations == old(self).iterations,
            final(self).last_iteration == old(self).last_iteration,
            final(self).starting_vertex == old(self).starting_vertex,
            final(self).found_negative_cycle == old(self).found_negative_cycle,
            forall|k: int|
                0 <= k <= iteration ==> #[trigger] final(self).table_row(k) == bf_row(
                    *graph,
                    starting_vertex,
                    old(self).num_vertex as nat,
                    k as nat,
                ),
            forall|x: int, y: int|
                0 <= x < old(self).num_vertex && iteration < y < old(self).iterations
                    ==> #[trigger] final(self).distances.at(x, y) == MinMax::<i64>::Max,
            final(self).predecessor@ == bf_preds(
                *graph,
                starting_vertex,
                old(self).num_vertex as nat,
                iteration as nat,
            ),
            changes == (bf_row(*graph, starting_vertex, old(self).num_vertex as nat, iteration as nat)
                != bf_row(*graph, starting_vertex, old(self).num_vertex as nat, (iteration - 1) as nat)),
    {
        let ghost g = *graph;
        let ghost w = old(self).num_vertex as nat;
        let ghost prev = bf_row(g, starting_vertex, w, (iteration - 1) as nat);
        proof {
            lemma_row_len(g, starting_vertex, w, (iteration - 1) as nat);
            lemma_row_len(g, starting_vertex, w, iteration as nat);
            assert(self.table_row(iteration - 1) == prev);
        }
        let verts = graph.vertex_iter();
        let mut changes: bool = false;
        let mut vi: usize = 0;
        while vi < verts.len()
            invariant
                self.wf(),
                self.num_vertex == old(self).num_vertex,
                self.iterations == old(self).iterations,
                self.last_iteration == old(self).last_iteration,
                self.starting_vertex == old(self).starting_vertex,
                self.found_negative_cycle == old(self).found_negative_cycle,
                g == *graph,
                w == self.num_vertex as nat,
                graph.wf(),
                graph.has_vertex(starting_vertex),
                ids_below(g, self.num_vertex),
                weights_bounded(g, MAX_EDGE_WEIGHT),
                self.num_vertex <= MAX_TABLE_WIDTH,
                verts@ == g.vkeys(),
                1 <= iteration < self.iterations,
                prev == bf_row(g, starting_vertex, w, (iteration - 1) as nat),
                prev.len() == w,
                bf_row(g, starting_vertex, w, iteration as nat).len() == w,
                vi <= verts@.len(),
                forall|k: int|
                    0 <= k <= iteration - 1 ==> #[trigger] self.table_row(k) == bf_row(
                        g,
                        starting_vertex,
                        w,
                        k as nat,
                    ),
                forall|x: int, y: int|
                    0 <= x < self.num_vertex && iteration < y < self.iterations
                        ==> #[trigger] self.distances.at(x, y) == MinMax::<i64>::Max,
                forall|x: int|
                    0 <= x < self.num_vertex && g.has_vertex(x as usize) && g.vindex(
                        x as usize,
                    ) < vi ==> mm_int(#[trigger] self.distances.at(x, iteration as int))
                        == bf_row(g, starting_vertex, w, iteration as nat)[x],
                forall|x: int|
                    0 <= x < self.num_vertex && !(g.has_vertex(x as usize) && g.vindex(
                        x as usize,
                    ) < vi) ==> #[trigger] self.distances.at(x, iteration as int)
                        == MinMax::<i64>::Max,
                forall|x: int|
                    0 <= x < self.num_vertex && g.has_vertex(x as usize) && g.vindex(
                        x as usize,
                    ) < vi ==> #[trigger] self.predecessor@[x] == bf_preds(
                        g,
                        starting_vertex,
                        w,
                        iteration as nat,
                    )[x],
                forall|x: int|
                    0 <= x < self.num_vertex && !(g.has_vertex(x as usize) && g.vindex(
                        x as usize,
                    ) < vi) ==> #[trigger] self.predecessor@[x] == bf_preds(
                        g,
                        starting_vertex,
                        w,
                        (iteration - 1) as nat,
                    )[x],
                changes == exists|x: int|
                    0 <= x < self.num_vertex && g.has_vertex(x as usize) && #[trigger] g.vindex(
                        x as usize,
                    ) < vi && bf_row(g, starting_vertex, w, iteration as nat)[x] != bf_row(
                        g,
                        starting_vertex,
                        w,
                        (iteration - 1) as nat,
                    )[x],
            decreases verts@.len() - vi,
        {
            let v = verts[vi];
            proof {
                assert(g.vkeys()[vi as int] == v);
                assert(g.vertex_map@[vi as int].vertex_id == v);
                g.lemma_vindex(v, vi as int);
                assert(g.has_vertex(v));
                assert(v < self.num_vertex);
                lemma_row_len(g, starting_vertex, w, (iteration - 1) as nat);
                lemma_bf_preds_len(g, starting_vertex, w, iteration as nat);
                lemma_bf_preds_len(g, starting_vertex, w, (iteration - 1) as nat);
                lemma_row_bound(g, starting_vertex, w, (iteration - 1) as nat);
            }
            let best = self.min_incoming(graph, v, iteration, Ghost(prev));
            let last_val = self.distances.get(v, iteration - 1);
            proof {
                assert(self.table_row(iteration - 1) == prev);
                assert(prev[v as int] == mm_int(self.distances.at(v as int, iteration - 1)));
                assert(mm_int(last_val) == prev[v as int]);
            }
            let ghost selfpre = *self;
            let mut newval = last_val;
            let mut changed_v: bool = false;
            match best {
                Option::Some((m, src)) => {
                    if m.lt(&last_val) {
                        newval = m;
                        changed_v = true;
                        self.predecessor.set(v, MinMax::Value(src));
                    }
                },
                Option::None => {},
            }
            self.distances.set(v, iteration, newval);
            if changed_v {
                changes = true;
            }
            proof {
                assert forall|k: int|
                    0 <= k <= iteration - 1 implies #[trigger] self.table_row(k) == bf_row(
                    g,
                    starting_vertex,
                    w,
                    k as nat,
                ) by {
                    assert(self.table_row(k) =~= selfpre.table_row(k));
                }
                let rowk = bf_row(g, starting_vertex, w, iteration as nat);
                let predsk = bf_preds(g, starting_vertex, w, iteration as nat);
                let predskm1 = bf_preds(g, starting_vertex, w, (iteration - 1) as nat);
                assert(rowk == next_row(g, prev));
                assert(predsk == next_preds(g, prev, predskm1));
                assert(rowk[v as int] == relaxed_value(g, prev, v));
                assert(predsk[v as int] == relaxed_pred(g, prev, predskm1, v));
                assert(mm_int(newval) == rowk[v as int]);
                assert(self.predecessor@[v as int] == predsk[v as int]);
                assert((rowk[v as int] != prev[v as int]) == changed_v);
                assert forall|x: int|
                    0 <= x < self.num_vertex && g.has_vertex(x as usize) && g.vindex(
                        x as usize,
                    ) < vi + 1 implies mm_int(#[trigger] self.distances.at(x, iteration as int))
                    == rowk[x] by {
                    if g.vindex(x as usize) == vi {
                        assert(g.vertex_map@[vi as int].vertex_id == x as usize);
                        assert(x as usize == v);
                    }
                }
                assert forall|x: int|
                    0 <= x < self.num_vertex && g.has_vertex(x as usize) && g.vindex(
                        x as usize,
                    ) < vi + 1 implies #[trigger] self.predecessor@[x] == predsk[x] by {
                    if g.vindex(x as usize) == vi {
                        assert(g.vertex_map@[vi as int].vertex_id == x as usize);
                        assert(x as usize == v);
                    }
                }
                if changes {
                    if changed_v {
                        assert(g.vindex(v) < vi + 1 && rowk[v as int] != prev[v as int]);
                    }
                }
            }
            vi = vi + 1;
        }
        proof {
            let rowk = bf_row(g, starting_vertex, w, iteration as nat);
            let predsk = bf_preds(g, starting_vertex, w, iteration as nat);
            lemma_bf_preds_len(g, starting_vertex, w, iteration as nat);
            lemma_nonvertex_max(g, starting_vertex, w, iteration as nat);
            lemma_nonvertex_max(g, starting_vertex, w, (iteration - 1) as nat);
            assert forall|x: int|
                0 <= x < self.num_vertex && #[trigger] g.has_vertex(x as usize) implies g.vindex(
                x as usize,
            ) < verts@.len() by {
                let xu = x as usize;
                let i = g.vindex(xu);
                assert(g.vertex_map@[i].vertex_id == xu);
            }
            assert(self.table_row(iteration as int) =~= rowk);
            assert(self.predecessor@ =~= predsk);
            if !changes {
                assert forall|x: int| 0 <= x < w implies rowk[x] == prev[x] by {
                    if g.has_vertex(x as usize) {
                        assert(g.vindex(x as usize) < verts@.len());
                    } else {
                        assert(rowk[x] == prev[x]);
                    }
                }
                assert(rowk =~= prev);
            }
        }
        changes
    }

    /// The minimum incoming candidate for vertex `v` against the previous
    /// iteration's row: smallest candidate distance, ties broken by the
    /// smaller source id.
    fn min_incoming(
        &self,
        graph: &DirectedGraph,
        v: usize,
        iteration: usize,
        Ghost(prev): Ghost<Seq<MinMax<int>>>,
    ) -> (best: Option<(MinMax<i64>, usize)>)
        requires
            self.wf(),
            graph.wf(),
            ids_below(*graph, self.num_vertex),
            weights_bounded(*graph, MAX_EDGE_WEIGHT),
            self.num_vertex <= MAX_TABLE_WIDTH,
            1 <= iteration < self.iterations,
            graph.has_vertex(v),
            prev.len() == self.num_vertex,
            self.table_row(iteration - 1) == prev,
            forall|x: int|
                0 <= x < prev.len() && #[trigger] prev[x] is Value ==> -((iteration - 1) as int)
                    * MAX_EDGE_WEIGHT <= prev[x]->Value_0 <= ((iteration - 1) as int)
                    * MAX_EDGE_WEIGHT,
        ensures
            lift_cand(best) == min_candidate(*graph, prev, v),
    {
        let ghost g = *graph;
        let ghost w = self.num_vertex as nat;
        let ghost ids = g.incoming_ids(v);
        let edges = graph.get_incoming(v);
        let mut best: Option<(MinMax<i64>, usize)> = None;
        let mut ei: usize = 0;
        while ei < edges.len()
            invariant
                self.wf(),
                g == *graph,
                w == self.num_vertex as nat,
                graph.wf(),
                ids_below(g, self.num_vertex),
                weights_bounded(g, MAX_EDGE_WEIGHT),
                self.num_vertex <= MAX_TABLE_WIDTH,
                1 <= iteration < self.iterations,
                prev.len() == self.num_vertex,
                self.table_row(iteration - 1) == prev,
                g.has_vertex(v),
                v < self.num_vertex,
                ids == g.incoming_ids(v),
                edges@.len() == ids.len(),
                forall|j: int| 0 <= j < ids.len() ==> edges@[j] == g.edge_of(ids[j]),
                ei <= edges@.len(),
                lift_cand(best) == min_candidate_prefix(g, prev, ids, ei as int),
                forall|x: int|
                    0 <= x < prev.len() && #[trigger] prev[x] is Value ==> -((iteration - 1) as int)
                        * MAX_EDGE_WEIGHT <= prev[x]->Value_0 <= ((iteration - 1) as int)
                        * MAX_EDGE_WEIGHT,
            decreases edges@.len() - ei,
        {
            let e = edges[ei];
            proof {
                assert(e == g.edge_of(ids[ei as int]));
                let vvi = g.vindex(v);
                g.lemma_vindex(v, vvi);
                assert(g.vertex_map@[vvi].incoming@[ei as int] == ids[ei as int]);
                assert(g.has_edge(ids[ei as int]));
                assert(g.has_vertex(e.source));
                assert(e.source < self.num_vertex);
                assert(mm_int(self.distances.at(e.source as int, iteration - 1)) == self.table_row(
                    iteration - 1,
                )[e.source as int]);
            }
            let dist = self.distances.get(e.source, iteration - 1);
            match dist {
                MinMax::Value(d) => {
                    proof {
                        assert(mm_int(dist) == prev[e.source as int]);
                        assert(prev[e.source as int] is Value);
                        assert(((iteration - 1) as int) * MAX_EDGE_WEIGHT <= 100000
                            * MAX_EDGE_WEIGHT) by (nonlinear_arith)
                            requires
                                0 <= (iteration - 1) as int <= 100000,
                                MAX_EDGE_WEIGHT > 0,
                        ;
                        assert(-MAX_EDGE_WEIGHT <= e.weight <= MAX_EDGE_WEIGHT);
                    }
                    let cand_val = d + e.weight;
                    let csrc = e.source;
                    proof {
                        assert(edge_candidate(g, prev, ids[ei as int]) == Some(
                            (MinMax::<int>::Value(d as int + e.weight), csrc),
                        ));
                        assert(mm_int(MinMax::Value(cand_val)) == MinMax::<int>::Value(
                            d as int + e.weight,
                        ));
                    }
                    let better = match &best {
                        Option::None => true,
                        Option::Some((bv, bs)) => {
                            let cv = MinMax::Value(cand_val);
                            proof {
                                lemma_mm_int_injective(cv, *bv);
                            }
                            cv.lt(bv) || (cv == *bv && csrc < *bs)
                        },
                    };
                    if better {
                        best = Some((MinMax::Value(cand_val), csrc));
                    }
                    proof {
                        assert(lift_cand(best) == min_candidate_prefix(
                            g,
                            prev,
                            ids,
                            ei + 1 as int,
                        ));
                    }
                },
                _ => {
                    proof {
                        assert(mm_int(dist) == prev[e.source as int]);
                        assert(!(prev[e.source as int] is Value));
                        assert(edge_candidate(g, prev, ids[ei as int]) is None);
                    }
                },
            }
            ei = ei + 1;
        }
        best
    }

    /// Finds the shortest path from a starting vertex to all other vertices
    /// in the graph: up to `iterations - 1` relaxation sweeps, stopping
    /// early once a sweep changes nothing, and raising the negative-cycle
    /// flag when the last permitted sweep still changed a distance.
    #[verifier::rlimit(60)]
    pub fn calculate_shortest_paths(&mut self, graph: &DirectedGraph, starting_vertex: usize)
        requires
            old(self).is_fresh(),
            graph.wf(),
            graph.has_vertex(starting_vertex),
            ids_below(*graph, old(self).num_vertex),
            weights_bounded(*graph, MAX_EDGE_WEIGHT),
            old(self).num_vertex <= MAX_TABLE_WIDTH,
        ensures
            final(self).computed(*graph, starting_vertex),
            final(self).num_vertex == old(self).num_vertex,
            final(self).iterations == old(self).iterations,
    {
        let ghost g = *graph;
        let ghost w = old(self).num_vertex as nat;
        self.found_negative_cycle = false;
        self.starting_vertex = starting_vertex;
        proof {
            assert(starting_vertex < self.num_vertex);
        }
        self.distances.set(starting_vertex, 0, MinMax::Value(0));
        proof {
            lemma_row_len(g, starting_vertex, w, 0);
            assert(self.table_row(0) =~= bf_row(g, starting_vertex, w, 0));
            lemma_bf_preds_len(g, starting_vertex, w, 0);
            assert(self.predecessor@ =~= bf_preds(g, starting_vertex, w, 0));
        }
        let mut iteration: usize = 1;
        let mut converged: bool = false;
        while iteration < self.iterations && !converged
            invariant
                self.wf(),
                self.num_vertex == old(self).num_vertex,
                self.iterations == old(self).iterations,
                self.starting_vertex == starting_vertex,
                g == *graph,
                w == self.num_vertex as nat,
                graph.wf(),
                graph.has_vertex(starting_vertex),
                ids_below(g, self.num_vertex),
                weights_bounded(g, MAX_EDGE_WEIGHT),
                self.num_vertex <= MAX_TABLE_WIDTH,
                1 <= iteration <= self.iterations,
                self.last_iteration == iteration - 1,
                forall|k: int|
                    0 <= k <= self.last_iteration ==> #[trigger] self.table_row(k) == bf_row(
                        g,
                        starting_vertex,
                        w,
                        k as nat,
                    ),
                forall|x: int, y: int|
                    0 <= x < self.num_vertex && self.last_iteration < y < self.iterations
                        ==> #[trigger] self.distances.at(x, y) == MinMax::<i64>::Max,
                self.predecessor@ == bf_preds(g, starting_vertex, w, self.last_iteration as nat),
                !converged ==> forall|j: int|
                    1 <= j <= self.last_iteration ==> !#[trigger] converged_at(
                        g,
                        starting_vertex,
                        w,
                        j,
                    ),
                converged ==> self.last_iteration >= 1 && converged_at(
                    g,
                    starting_vertex,
                    w,
                    self.last_iteration as int,
                ),
                converged ==> forall|j: int|
                    1 <= j < self.last_iteration ==> !#[trigger] converged_at(
                        g,
                        starting_vertex,
                        w,
                        j,
                    ),
                self.found_negative_cycle == (self.iterations >= 2 && self.last_iteration
                    == self.iterations - 1 && !converged_at(
                    g,
                    starting_vertex,
                    w,
                    self.iterations - 1,
                )),
            decreases self.iterations - iteration,
        {
            let changes = self.relax_sweep(graph, starting_vertex, iteration);
            proof {
                assert(changes == !converged_at(g, starting_vertex, w, iteration as int));
            }
            let ghost selfmid = *self;
            self.last_iteration = iteration;
            if !changes {
                converged = true;
            } else if iteration == self.iterations - 1 {
                self.found_negative_cycle = true;
            }
            proof {
                assert forall|k: int|
                    0 <= k <= self.last_iteration implies #[trigger] self.table_row(k) == bf_row(
                    g,
                    starting_vertex,
                    w,
                    k as nat,
                ) by {
                    assert(selfmid.table_row(k) == bf_row(g, starting_vertex, w, k as nat));
                    assert(self.table_row(k) =~= selfmid.table_row(k));
                }
            }
            iteration = iteration + 1;
        }
        proof {
            let n = self.iterations as int;
            if n >= 2 && !converged_at(g, starting_vertex, w, n - 1) {
                if self.last_iteration < n - 1 {
                    assert(converged);
                    lemma_fixpoint_persists(
                        g,
                        starting_vertex,
                        w,
                        self.last_iteration as nat,
                        (n - 1) as nat,
                    );
                    lemma_fixpoint_persists(
                        g,
                        starting_vertex,
                        w,
                        self.last_iteration as nat,
                        (n - 2) as nat,
                    );
                    assert(false);
                }
            }
        }
    }
}

/// Predecessor tables keep the table width at every iteration.
proof fn lemma_bf_preds_len(g: DirectedGraph, s: usize, width: nat, k: nat)
    ensures
        bf_preds(g, s, width, k).len() == width,
    decreases k,
{
    if k > 0 {
        lemma_bf_preds_len(g, s, width, (k - 1) as nat);
    }
}


/// `a` is at or below `b` in the lattice order.
pub open spec fn mm_le(a: MinMax<int>, b: MinMax<int>) -> bool {
    mm_lt(a, b) || a == b
}

/// The lattice order is total: two values that are not strictly ordered
/// one way are ordered the other.
pub proof fn lemma_mm_total(a: MinMax<int>, b: MinMax<int>)
    requires
        !mm_lt(a, b),
    ensures
        mm_le(b, a),
{
}

/// The strict order is transitive.
pub proof fn lemma_mm_lt_trans(a: MinMax<int>, b: MinMax<int>, c: MinMax<int>)
    requires
        mm_lt(a, b),
        mm_lt(b, c),
    ensures
        mm_lt(a, c),
{
}

/// The non-strict order is transitive.
pub proof fn lemma_mm_le_trans(a: MinMax<int>, b: MinMax<int>, c: MinMax<int>)
    requires
        mm_le(a, b),
        mm_le(b, c),
    ensures
        mm_le(a, c),
{
}

/// Strict order composes with the non-strict one.
pub proof fn lemma_mm_lt_le_trans(a: MinMax<int>, b: MinMax<int>, c: MinMax<int>)
    requires
        mm_lt(a, b),
        mm_le(b, c),
    ensures
        mm_lt(a, c),
{
}

/// A reconstructed predecessor path: non-empty, ends at `dest`, every link
/// recorded in the predecessor table, and it starts at the start vertex
/// unless the chain ran out (no predecessor) or the cycle guard tripped
/// (`cap + 2` entries).
pub open spec fn pred_chain_ok(
    preds: Seq<MinMax<usize>>,
    start: usize,
    dest: usize,
    cap: usize,
    path: Seq<usize>,
) -> bool {
    &&& 1 <= path.len() <= cap + 2
    &&& path[path.len() - 1] == dest
    &&& forall|i: int|
        0 < i < path.len() ==> #[trigger] path[i] < preds.len() && preds[path[i] as int]
            == MinMax::Value(path[i - 1])
    &&& (path[0] == start || (path[0] < preds.len() && !(preds[path[0] as int] is Value))
        || path.len() == cap + 2)
}

impl Bellman {
    /// Every recorded predecessor is a valid table index.
    pub open spec fn preds_in_range(self) -> bool {
        forall|v: int|
            0 <= v < self.predecessor@.len() && #[trigger] self.predecessor@[v] is Value
                ==> self.predecessor@[v]->Value_0 < self.num_vertex
    }

    /// Returns the shortest distance from the starting vertex to
    /// `dest_vertex`, read from the last computed iteration; `NA` if the
    /// vertex is out of range.
    pub fn get_shortest_path_distance(&self, dest_vertex: usize) -> (r: MinMax<i64>)
        requires
            self.wf(),
        ensures
            dest_vertex < self.num_vertex ==> r == self.distances.at(
                dest_vertex as int,
                self.last_iteration as int,
            ),
            dest_vertex >= self.num_vertex ==> r == MinMax::<i64>::NA,
    {
        if dest_vertex < self.num_vertex {
            self.distances.get(dest_vertex, self.last_iteration)
        } else {
            MinMax::NA
        }
    }

    /// Returns the distances from the starting vertex to every vertex, read
    /// from the last computed iteration.
    pub fn get_shortest_path_distances(&self) -> (r: Vec<MinMax<i64>>)
        requires
            self.wf(),
        ensures
            r@.len() == self.num_vertex,
            forall|x: int|
                0 <= x < self.num_vertex ==> r@[x] == self.distances.at(
                    x,
                    self.last_iteration as int,
                ),
    {
        self.distances.get_row(self.last_iteration)
    }

    /// Walks the predecessor links backward from `dest_vertex`, bounded by
    /// `num_vertex` steps as a cycle guard, and returns the path in
    /// source-to-dest order.
    fn find_path(&self, dest_vertex: usize) -> (r: Vec<usize>)
        requires
            self.wf(),
            self.preds_in_range(),
            self.num_vertex < usize::MAX - 1,
            dest_vertex < self.num_vertex,
        ensures
            pred_chain_ok(
                self.predecessor@,
                self.starting_vertex,
                dest_vertex,
                self.num_vertex,
                r@,
            ),
    {
        let ghost preds = self.predecessor@;
        let mut vertex_list: Vec<usize> = Vec::new();
        vertex_list.push(dest_vertex);
        let walk = match self.predecessor[dest_vertex] {
            MinMax::Value(_) => true,
            _ => dest_vertex == self.starting_vertex,
        };
        if walk {
            let mut current_vertex = dest_vertex;
            let mut predecessor_count: usize = 0;
            loop
                invariant_except_break
                    self.wf(),
                    self.preds_in_range(),
                    self.num_vertex < usize::MAX - 1,
                    preds == self.predecessor@,
                    predecessor_count <= self.num_vertex,
                    vertex_list@.len() == predecessor_count + 1,
                    vertex_list@[0] == dest_vertex,
                    current_vertex == vertex_list@[vertex_list@.len() - 1],
                    current_vertex < self.num_vertex,
                    forall|i: int|
                        0 <= i < vertex_list@.len() - 1 ==> #[trigger] vertex_list@[i]
                            < preds.len() && preds[vertex_list@[i] as int] == MinMax::Value(
                            vertex_list@[i + 1],
                        ),
                ensures
                    vertex_list@.len() >= 1,
                    vertex_list@.len() <= self.num_vertex + 2,
                    vertex_list@[0] == dest_vertex,
                    forall|i: int|
                        0 <= i < vertex_list@.len() - 1 ==> #[trigger] vertex_list@[i]
                            < preds.len() && preds[vertex_list@[i] as int] == MinMax::Value(
                            vertex_list@[i + 1],
                        ),
                    vertex_list@[vertex_list@.len() - 1] == self.starting_vertex || (
                    vertex_list@[vertex_list@.len() - 1] < preds.len() && !(preds[vertex_list@[
                        vertex_list@.len() - 1] as int] is Value)) || vertex_list@.len()
                        == self.num_vertex + 2,
                decreases self.num_vertex + 1 - predecessor_count,
            {
                match self.predecessor[current_vertex] {
                    MinMax::Value(preceeding_vertex) => {
                        predecessor_count = predecessor_count + 1;
                        vertex_list.push(preceeding_vertex);
                        current_vertex = preceeding_vertex;
                        if predecessor_count > self.num_vertex || current_vertex
                            == self.starting_vertex {
                            break;
                        }
                    },
                    _ => {
                        break;
                    },
                }
            }
        }
        let mut path: Vec<usize> = Vec::new();
        let mut i: usize = vertex_list.len();
        while i > 0
            invariant
                i <= vertex_list@.len(),
                path@.len() == vertex_list@.len() - i,
                forall|j: int|
                    0 <= j < path@.len() ==> #[trigger] path@[j] == vertex_list@[vertex_list@.len()
                        - 1 - j],
            decreases i,
        {
            i = i - 1;
            path.push(vertex_list[i]);
        }
        proof {
            let p = path@;
            let l = vertex_list@;
            assert(p.len() == l.len());
            assert(p[p.len() - 1] == l[0]);
            assert forall|k: int|
                0 < k < p.len() implies #[trigger] p[k] < preds.len() && preds[p[k] as int]
                == MinMax::Value(p[k - 1]) by {
                assert(p[k] == l[l.len() - 1 - k]);
                assert(p[k - 1] == l[l.len() - k]);
                assert(l[l.len() - 1 - k] < preds.len() && preds[l[l.len() - 1 - k] as int]
                    == MinMax::Value(l[l.len() - 1 - k + 1]));
            }
        }
        path
    }

    /// Reconstructs the path for each requested destination; the boolean
    /// marks a path cut short by the cycle guard.
    pub fn get_shortest_paths(&self, vertex_list: Vec<usize>) -> (r: Vec<(usize, Vec<usize>, bool)>)
        requires
            self.wf(),
            self.preds_in_range(),
            self.num_vertex < usize::MAX - 1,
            forall|i: int| 0 <= i < vertex_list@.len() ==> #[trigger] vertex_list@[i] < self.num_vertex,
        ensures
            r@.len() == vertex_list@.len(),
            forall|i: int|
                0 <= i < r@.len() ==> (#[trigger] r@[i]).0 == vertex_list@[i] && pred_chain_ok(
                    self.predecessor@,
                    self.starting_vertex,
                    vertex_list@[i],
                    self.num_vertex,
                    r@[i].1@,
                ) && r@[i].2 == (r@[i].1@.len() > self.num_vertex),
    {
        let mut result: Vec<(usize, Vec<usize>, bool)> = Vec::new();
        let mut i: usize = 0;
        while i < vertex_list.len()
            invariant
                self.wf(),
                self.preds_in_range(),
                self.num_vertex < usize::MAX - 1,
                forall|k: int|
                    0 <= k < vertex_list@.len() ==> #[trigger] vertex_list@[k] < self.num_vertex,
                i <= vertex_list@.len(),
                result@.len() == i,
                forall|k: int|
                    0 <= k < i ==> (#[trigger] result@[k]).0 == vertex_list@[k] && pred_chain_ok(
                        self.predecessor@,
                        self.starting_vertex,
                        vertex_list@[k],
                        self.num_vertex,
                        result@[k].1@,
                    ) && result@[k].2 == (result@[k].1@.len() > self.num_vertex),
            decreases vertex_list@.len() - i,
        {
            let v = vertex_list[i];
            let path = self.find_path(v);
            let has_cycle = path.len() > self.num_vertex;
            result.push((v, path, has_cycle));
            i = i + 1;
        }
        result
    }
}

/// Distances never increase from one iteration to the next: each relaxation
/// keeps the previous value unless a strictly smaller candidate replaces it.
pub proof fn lemma_rows_nonincreasing(g: DirectedGraph, s: usize, width: nat, k: nat)
    requires
        k >= 1,
    ensures
        forall|v: int|
            0 <= v < width ==> mm_le(
                #[trigger] bf_row(g, s, width, k)[v],
                bf_row(g, s, width, (k - 1) as nat)[v],
            ),
{
    lemma_row_len(g, s, width, k);
    lemma_row_len(g, s, width, (k - 1) as nat);
    let prev = bf_row(g, s, width, (k - 1) as nat);
    let cur = bf_row(g, s, width, k);
    assert(cur == next_row(g, prev));
}

/// Two engines that computed the same graph and start agree on the stopping
/// iteration, the whole distance table, the predecessor tree, and the flag:
/// the computation is a function of graph and start alone.
#[verifier::rlimit(100)]
#[verifier::spinoff_prover]
pub proof fn lemma_bellman_deterministic(b1: Bellman, b2: Bellman, g: DirectedGraph, s: usize)
    requires
        b1.computed(g, s),
        b2.computed(g, s),
        b1.num_vertex == b2.num_vertex,
    ensures
        b1.last_iteration == b2.last_iteration,
        forall|k: int|
            0 <= k <= b1.last_iteration ==> #[trigger] b1.table_row(k) == b2.table_row(k),
        b1.predecessor@ == b2.predecessor@,
        b1.found_negative_cycle == b2.found_negative_cycle,
{
    let w = b1.num_vertex as nat;
    let n = b1.iterations as int;
    if b1.last_iteration < b2.last_iteration {
        assert(b1.last_iteration >= 1);
        assert(b1.last_iteration < n - 1);
        assert(converged_at(g, s, w, b1.last_iteration as int));
        assert(!converged_at(g, s, w, b1.last_iteration as int));
    }
    if b2.last_iteration < b1.last_iteration {
        assert(b2.last_iteration >= 1);
        assert(b2.last_iteration < n - 1);
        assert(converged_at(g, s, w, b2.last_iteration as int));
        assert(!converged_at(g, s, w, b2.last_iteration as int));
    }
}

/// Row values are always finite values or `Max`: the lattice's `Min` and
/// `NA` never enter a distance table.
pub proof fn lemma_row_variants(g: DirectedGraph, s: usize, width: nat, k: nat)
    ensures
        forall|v: int|
            0 <= v < width ==> (#[trigger] bf_row(g, s, width, k)[v] is Value || bf_row(
                g,
                s,
                width,
                k,
            )[v] is Max),
    decreases k,
{
    lemma_row_len(g, s, width, k);
    if k > 0 {
        let km1 = (k - 1) as nat;
        lemma_row_variants(g, s, width, km1);
        lemma_row_len(g, s, width, km1);
        let prev = bf_row(g, s, width, km1);
        let cur = bf_row(g, s, width, k);
        assert(cur == next_row(g, prev));
        assert forall|v: int|
            0 <= v < width implies (#[trigger] cur[v] is Value || cur[v] is Max) by {
            let vu = v as usize;
            if g.has_vertex(vu) {
                match min_candidate(g, prev, vu) {
                    Option::None => {},
                    Option::Some((m, src)) => {
                        let ids = g.incoming_ids(vu);
                        lemma_min_cand_witness(g, prev, ids, ids.len() as int);
                    },
                }
            }
        }
    }
}

/// The minimum candidate is at or below every individual candidate.
pub proof fn lemma_min_cand_le(
    g: DirectedGraph,
    prev: Seq<MinMax<int>>,
    ids: Seq<usize>,
    n: int,
    j: int,
)
    requires
        0 <= j < n <= ids.len(),
        edge_candidate(g, prev, ids[j]) is Some,
    ensures
        min_candidate_prefix(g, prev, ids, n) matches Some(m) && mm_le(
            m.0,
            (edge_candidate(g, prev, ids[j])->0).0,
        ),
    decreases n,
{
    let c = edge_candidate(g, prev, ids[j])->0;
    if j == n - 1 {
        match min_candidate_prefix(g, prev, ids, n - 1) {
            Option::None => {},
            Option::Some(a) => {},
        }
    } else {
        lemma_min_cand_le(g, prev, ids, n - 1, j);
    }
}

/// Reweighting correctness at a fixpoint: for every edge (u, v, w) recorded
/// in v's incoming set, finite potentials h from a converged row satisfy
/// `w + h(u) - h(v) >= 0`; moreover a finite h(u) forces a finite h(v).
#[verifier::rlimit(100)]
#[verifier::spinoff_prover]
pub proof fn lemma_reweighting_nonnegative(
    g: DirectedGraph,
    s: usize,
    width: nat,
    k: nat,
    vd: usize,
    eid: usize,
)
    requires
        g.wf(),
        k >= 1,
        bf_row(g, s, width, k) == bf_row(g, s, width, (k - 1) as nat),
        g.has_vertex(vd),
        vd < width,
        g.incoming_ids(vd).contains(eid),
        g.edge_of(eid).source < width,
        bf_row(g, s, width, k)[g.edge_of(eid).source as int] is Value,
    ensures
        bf_row(g, s, width, k)[vd as int] is Value,
        g.edge_of(eid).weight + bf_row(g, s, width, k)[g.edge_of(eid).source as int]->Value_0
            - bf_row(g, s, width, k)[vd as int]->Value_0 >= 0,
{
    lemma_row_len(g, s, width, k);
    lemma_row_len(g, s, width, (k - 1) as nat);
    let h = bf_row(g, s, width, k);
    let e = g.edge_of(eid);
    let ids = g.incoming_ids(vd);
    let j = choose|j: int| 0 <= j < ids.len() && ids[j] == eid;
    assert(edge_candidate(g, h, eid) == Some(
        (MinMax::<int>::Value(h[e.source as int]->Value_0 + e.weight), e.source),
    ));
    lemma_min_cand_le(g, h, ids, ids.len() as int, j);
    let m = min_candidate(g, h, vd)->0;
    assert(bf_row(g, s, width, (k + 1) as nat) == next_row(g, h));
    lemma_fixpoint_persists(g, s, width, k, (k + 1) as nat);
    assert(bf_row(g, s, width, (k + 1) as nat) == bf_row(g, s, width, (k - 1) as nat));
    assert(next_row(g, h)[vd as int] == relaxed_value(g, h, vd));
    assert(h[vd as int] == relaxed_value(g, h, vd));
    assert(mm_le(h[vd as int], m.0));
    assert(mm_le(h[vd as int], MinMax::Value(h[e.source as int]->Value_0 + e.weight)));
    lemma_row_variants(g, s, width, k);
}


/// Every recorded predecessor entered through a real incoming edge: a
/// `Value(u)` predecessor of `v` comes with an edge from `u` registered in
/// `v`'s incoming set.
#[verifier::rlimit(100)]
#[verifier::spinoff_prover]
pub proof fn lemma_preds_have_edges(g: DirectedGraph, s: usize, width: nat, k: nat)
    requires
        g.wf(),
        width <= MAX_TABLE_WIDTH,
    ensures
        forall|v: int|
            0 <= v < width && #[trigger] bf_preds(g, s, width, k)[v] is Value ==> exists|
                eid: usize,
            |
                #[trigger] g.incoming_ids(v as usize).contains(eid) && g.edge_of(eid).source
                    == bf_preds(g, s, width, k)[v]->Value_0,
    decreases k,
{
    lemma_bf_preds_len_pub(g, s, width, k);
    if k > 0 {
        let km1 = (k - 1) as nat;
        lemma_preds_have_edges(g, s, width, km1);
        lemma_bf_preds_len_pub(g, s, width, km1);
        lemma_row_len(g, s, width, km1);
        let prev = bf_row(g, s, width, km1);
        let predsp = bf_preds(g, s, width, km1);
        let preds = bf_preds(g, s, width, k);
        assert(preds == next_preds(g, prev, predsp));
        assert forall|v: int|
            0 <= v < width && #[trigger] preds[v] is Value implies exists|eid: usize|
            #[trigger] g.incoming_ids(v as usize).contains(eid) && g.edge_of(eid).source
                == preds[v]->Value_0 by {
            let vu = v as usize;
            if g.has_vertex(vu) {
                assert(preds[v] == relaxed_pred(g, prev, predsp, vu));
                match min_candidate(g, prev, vu) {
                    Option::None => {
                        assert(preds[v] == predsp[v]);
                    },
                    Option::Some((m, src)) => {
                        if mm_lt(m, prev[v]) {
                            let ids = g.incoming_ids(vu);
                            lemma_min_cand_witness(g, prev, ids, ids.len() as int);
                            let j = choose|j: int|
                                0 <= j < ids.len() && edge_candidate(g, prev, #[trigger] ids[j])
                                    == Some((m, src));
                            assert(g.incoming_ids(vu).contains(ids[j])) by {
                                assert(ids[j] == g.incoming_ids(vu)[j]);
                            }
                            assert(g.edge_of(ids[j]).source == src);
                        } else {
                            assert(preds[v] == predsp[v]);
                        }
                    },
                }
            } else {
                assert(preds[v] == predsp[v]);
            }
        }
    }
}

/// Predecessor tables keep the table width (public form).
pub proof fn lemma_bf_preds_len_pub(g: DirectedGraph, s: usize, width: nat, k: nat)
    ensures
        bf_preds(g, s, width, k).len() == width,
    decreases k,
{
    if k > 0 {
        lemma_bf_preds_len_pub(g, s, width, (k - 1) as nat);
    }
}

/// Every reconstructed path's edges exist in the graph: each consecutive
/// pair of a predecessor-chain path from a computed engine is connected by
/// an edge registered in the later vertex's incoming set.
#[verifier::rlimit(100)]
#[verifier::spinoff_prover]
pub proof fn lemma_bellman_path_edges_exist(
    b: Bellman,
    g: DirectedGraph,
    s: usize,
    dest: usize,
    path: Seq<usize>,
    i: int,
)
    requires
        g.wf(),
        b.num_vertex <= MAX_TABLE_WIDTH,
        b.predecessor@ == bf_preds(g, s, b.num_vertex as nat, b.last_iteration as nat),
        pred_chain_ok(b.predecessor@, b.starting_vertex, dest, b.num_vertex, path),
        0 < i < path.len(),
    ensures
        exists|eid: usize|
            g.incoming_ids(#[trigger] path[i]).contains(eid) && g.edge_of(eid).source == path[i
                - 1],
{
    let w = b.num_vertex as nat;
    let k = b.last_iteration as nat;
    lemma_preds_have_edges(g, s, w, k);
    lemma_bf_preds_len_pub(g, s, w, k);
    assert(path[i] < b.predecessor@.len());
    assert(b.predecessor@[path[i] as int] == MinMax::Value(path[i - 1]));
    assert(bf_preds(g, s, w, k)[path[i] as int] is Value);
    let eid = choose|eid: usize|
        #[trigger] g.incoming_ids(path[i] as usize).contains(eid) && g.edge_of(eid).source
            == bf_preds(g, s, w, k)[path[i] as int]->Value_0;
    assert(g.incoming_ids(path[i]).contains(eid));
}

/// Across iterations, each vertex's recorded distance in the computed
/// table is non-increasing.
pub proof fn lemma_table_nonincreasing(b: Bellman, g: DirectedGraph, s: usize, k: int)
    requires
        b.computed(g, s),
        1 <= k <= b.last_iteration,
    ensures
        forall|v: int|
            0 <= v < b.num_vertex ==> mm_le(
                mm_int(#[trigger] b.distances.at(v, k)),
                mm_int(b.distances.at(v, k - 1)),
            ),
{
    let w = b.num_vertex as nat;
    lemma_rows_nonincreasing(g, s, w, k as nat);
    lemma_row_len(g, s, w, k as nat);
    lemma_row_len(g, s, w, (k - 1) as nat);
    assert forall|v: int|
        0 <= v < b.num_vertex implies mm_le(
        mm_int(#[trigger] b.distances.at(v, k)),
        mm_int(b.distances.at(v, k - 1)),
    ) by {
        assert(b.table_row(k) == bf_row(g, s, w, k as nat));
        assert(b.table_row(k - 1) == bf_row(g, s, w, (k - 1) as nat));
        assert(b.table_row(k)[v] == mm_int(b.distances.at(v, k)));
        assert(b.table_row(k - 1)[v] == mm_int(b.distances.at(v, k - 1)));
        assert(mm_le(bf_row(g, s, w, k as nat)[v], bf_row(g, s, w, (k - 1) as nat)[v]));
    }
}


/// One candidate edge realizing a recorded predecessor link `u -> v` with
/// a lower bound: `v`'s distance is at least `u`'s plus the edge weight.
pub open spec fn link_lower_at(
    g: DirectedGraph,
    s: usize,
    width: nat,
    k: nat,
    v: int,
    eid: usize,
) -> bool {
    &&& g.incoming_ids(v as usize).contains(eid)
    &&& g.edge_of(eid).source == bf_preds(g, s, width, k)[v]->Value_0
    &&& g.edge_of(eid).source < width
    &&& bf_row(g, s, width, k)[v] is Value
    &&& bf_row(g, s, width, k)[g.edge_of(eid).source as int] is Value
    &&& bf_row(g, s, width, k)[v]->Value_0 >= bf_row(
        g,
        s,
        width,
        k,
    )[g.edge_of(eid).source as int]->Value_0 + g.edge_of(eid).weight
}

/// Inductive support for link tightness: every recorded predecessor link
/// came from a relaxation, so it satisfies the lower bound above.
#[verifier::rlimit(100)]
#[verifier::spinoff_prover]
proof fn lemma_pred_link_lower(g: DirectedGraph, s: usize, width: nat, k: nat, v: int)
    requires
        g.wf(),
        width <= MAX_TABLE_WIDTH,
        0 <= v < width,
        bf_preds(g, s, width, k)[v] is Value,
    ensures
        exists|eid: usize| #[trigger] link_lower_at(g, s, width, k, v, eid),
    decreases k,
{
    lemma_row_len(g, s, width, k);
    lemma_bf_preds_len_pub(g, s, width, k);
    if k == 0 {
        assert(false);
    } else {
        let km1 = (k - 1) as nat;
        lemma_row_len(g, s, width, km1);
        lemma_bf_preds_len_pub(g, s, width, km1);
        let prev = bf_row(g, s, width, km1);
        let cur = bf_row(g, s, width, k);
        let predsp = bf_preds(g, s, width, km1);
        let preds = bf_preds(g, s, width, k);
        assert(cur == next_row(g, prev));
        assert(preds == next_preds(g, prev, predsp));
        let vu = v as usize;
        assert(vu as int == v);
        let mut fresh: bool = false;
        if g.has_vertex(vu) {
            assert(preds[v] == relaxed_pred(g, prev, predsp, vu));
            assert(cur[v] == relaxed_value(g, prev, vu));
            match min_candidate(g, prev, vu) {
                Option::None => {},
                Option::Some((m, src)) => {
                    if mm_lt(m, prev[v]) {
                        fresh = true;
                        let ids = g.incoming_ids(vu);
                        lemma_min_cand_witness(g, prev, ids, ids.len() as int);
                        let j = choose|j: int|
                            0 <= j < ids.len() && edge_candidate(g, prev, #[trigger] ids[j])
                                == Some((m, src));
                        let eid = ids[j];
                        assert(g.incoming_ids(vu).contains(eid)) by {
                            assert(ids[j] == g.incoming_ids(vu)[j]);
                        }
                        let e = g.edge_of(eid);
                        assert(e.source < width) by {
                            let vvi = g.vindex(vu);
                            g.lemma_vindex(vu, vvi);
                            assert(g.vertex_map@[vvi].incoming@[j] == eid);
                            assert(g.has_edge(eid));
                            assert(g.has_vertex(e.source));
                        }
                        assert(cur[v] == m);
                        assert(m->Value_0 == prev[e.source as int]->Value_0 + e.weight);
                        lemma_rows_nonincreasing(g, s, width, k);
                        assert(mm_le(cur[e.source as int], prev[e.source as int]));
                        lemma_row_variants(g, s, width, k);
                        assert(cur[e.source as int] is Value);
                        assert(link_lower_at(g, s, width, k, v, eid));
                    }
                },
            }
        }
        if !fresh {
            assert(preds[v] == predsp[v]);
            assert(cur[v] == prev[v]);
            lemma_pred_link_lower(g, s, width, km1, v);
            let eid = choose|eid: usize| #[trigger] link_lower_at(g, s, width, km1, v, eid);
            let u = g.edge_of(eid).source as int;
            lemma_rows_nonincreasing(g, s, width, k);
            assert(mm_le(cur[u], prev[u]));
            lemma_row_variants(g, s, width, k);
            assert(cur[u] is Value) by {
                assert(bf_row(g, s, width, km1)[u] is Value);
                assert(mm_le(cur[u], bf_row(g, s, width, km1)[u]));
            }
            assert(link_lower_at(g, s, width, k, v, eid));
        }
    }
}

/// Link tightness at a fixpoint: once Bellman-Ford has converged, every
/// recorded predecessor link `u -> v` is realized by an edge whose weight
/// closes the distance exactly: `d(v) = d(u) + w`.  Summed along a
/// reconstructed path, the edge weights therefore telescope to the
/// reported distance.
#[verifier::rlimit(100)]
#[verifier::spinoff_prover]
pub proof fn lemma_pred_link_tight(g: DirectedGraph, s: usize, width: nat, k: nat, v: int)
    requires
        g.wf(),
        width <= MAX_TABLE_WIDTH,
        k >= 1,
        bf_row(g, s, width, k) == bf_row(g, s, width, (k - 1) as nat),
        0 <= v < width,
        g.has_vertex(v as usize),
        bf_preds(g, s, width, k)[v] is Value,
    ensures
        exists|eid: usize|
            #[trigger] link_lower_at(g, s, width, k, v, eid) && bf_row(g, s, width, k)[v]->Value_0
                == bf_row(g, s, width, k)[g.edge_of(eid).source as int]->Value_0 + g.edge_of(
                eid,
            ).weight,
{
    lemma_row_len(g, s, width, k);
    lemma_row_len(g, s, width, (k - 1) as nat);
    lemma_bf_preds_len_pub(g, s, width, k);
    lemma_pred_link_lower(g, s, width, k, v);
    let eid = choose|eid: usize| #[trigger] link_lower_at(g, s, width, k, v, eid);
    lemma_reweighting_nonnegative(g, s, width, k, v as usize, eid);
    assert(link_lower_at(g, s, width, k, v, eid));
}


/// Edge ids realizing a path: one edge per consecutive vertex pair,
/// registered in the later vertex's incoming set.
pub open spec fn edge_ids_connect(g: DirectedGraph, path: Seq<usize>, eids: Seq<usize>) -> bool {
    &&& eids.len() + 1 == path.len()
    &&& forall|i: int|
        0 <= i < eids.len() ==> g.incoming_ids(path[i + 1]).contains(#[trigger] eids[i])
            && g.edge_of(eids[i]).source == path[i]
}

/// The summed weight of a sequence of edges.
pub open spec fn weight_sum(g: DirectedGraph, eids: Seq<usize>) -> int
    decreases eids.len(),
{
    if eids.len() == 0 {
        0
    } else {
        weight_sum(g, eids.drop_last()) + g.edge_of(eids.last()).weight
    }
}

/// A reconstructed path's summed weight equals the reported distance
/// difference: at a fixpoint, the predecessor chain is realized by edges
/// whose weights telescope from the path's first vertex to its last.
/// With the start vertex at the head (distance 0), the sum is exactly the
/// reported distance of the destination.
#[verifier::rlimit(100)]
#[verifier::spinoff_prover]
pub proof fn lemma_path_weight_telescopes(
    g: DirectedGraph,
    s: usize,
    width: nat,
    k: nat,
    path: Seq<usize>,
)
    requires
        g.wf(),
        width <= MAX_TABLE_WIDTH,
        k >= 1,
        bf_row(g, s, width, k) == bf_row(g, s, width, (k - 1) as nat),
        path.len() >= 1,
        forall|i: int| 0 <= i < path.len() ==> #[trigger] path[i] < width,
        forall|i: int| 0 <= i < path.len() ==> g.has_vertex(#[trigger] path[i]),
        forall|i: int|
            0 < i < path.len() ==> bf_preds(g, s, width, k)[#[trigger] path[i] as int]
                == MinMax::Value(path[i - 1]),
        bf_row(g, s, width, k)[path[path.len() - 1] as int] is Value,
    ensures
        bf_row(g, s, width, k)[path[0] as int] is Value,
        exists|eids: Seq<usize>|
            #[trigger] edge_ids_connect(g, path, eids) && weight_sum(g, eids) == bf_row(
                g,
                s,
                width,
                k,
            )[path[path.len() - 1] as int]->Value_0 - bf_row(g, s, width, k)[path[0] as int]->Value_0,
    decreases path.len(),
{
    lemma_row_len(g, s, width, k);
    lemma_bf_preds_len_pub(g, s, width, k);
    let h = bf_row(g, s, width, k);
    if path.len() == 1 {
        let eids = Seq::<usize>::empty();
        assert(edge_ids_connect(g, path, eids));
        assert(weight_sum(g, eids) == 0);
    } else {
        let n = path.len() as int;
        let v = path[n - 1];
        let u = path[n - 2];
        assert(bf_preds(g, s, width, k)[v as int] == MinMax::Value(u));
        lemma_pred_link_tight(g, s, width, k, v as int);
        let eid = choose|eid: usize|
            #[trigger] link_lower_at(g, s, width, k, v as int, eid) && bf_row(
                g,
                s,
                width,
                k,
            )[v as int]->Value_0 == bf_row(g, s, width, k)[g.edge_of(eid).source as int]->Value_0
                + g.edge_of(eid).weight;
        assert(g.edge_of(eid).source == u);
        assert(h[u as int] is Value);
        let prefix = path.drop_last();
        assert(prefix.len() == n - 1);
        assert forall|i: int| 0 <= i < prefix.len() implies #[trigger] prefix[i] < width
            && g.has_vertex(prefix[i]) by {
            assert(prefix[i] == path[i]);
        }
        assert forall|i: int|
            0 < i < prefix.len() implies bf_preds(g, s, width, k)[#[trigger] prefix[i] as int]
            == MinMax::Value(prefix[i - 1]) by {
            assert(prefix[i] == path[i]);
            assert(prefix[i - 1] == path[i - 1]);
        }
        assert(prefix[prefix.len() - 1] == u);
        lemma_path_weight_telescopes(g, s, width, k, prefix);
        let eids0 = choose|eids: Seq<usize>|
            #[trigger] edge_ids_connect(g, prefix, eids) && weight_sum(g, eids) == bf_row(
                g,
                s,
                width,
                k,
            )[prefix[prefix.len() - 1] as int]->Value_0 - bf_row(g, s, width, k)[prefix[0] as int]->Value_0;
        let eids = eids0.push(eid);
        assert(eids.drop_last() =~= eids0);
        assert(eids.last() == eid);
        assert(weight_sum(g, eids) == weight_sum(g, eids0) + g.edge_of(eid).weight);
        assert(edge_ids_connect(g, path, eids)) by {
            assert forall|i: int|
                0 <= i < eids.len() implies g.incoming_ids(path[i + 1]).contains(
                #[trigger] eids[i],
            ) && g.edge_of(eids[i]).source == path[i] by {
                if i < eids.len() - 1 {
                    assert(eids[i] == eids0[i]);
                    assert(prefix[i + 1] == path[i + 1]);
                    assert(prefix[i] == path[i]);
                } else {
                    assert(eids[i] == eid);
                    assert(link_lower_at(g, s, width, k, v as int, eid));
                }
            }
        }
        assert(path[0] == prefix[0]);
    }
}


/// The start vertex's row entry stays a finite value at most 0 through
/// every iteration: it begins at 0 and distances never increase.
pub proof fn lemma_row_source_le_zero(g: DirectedGraph, s: usize, width: nat, k: nat)
    requires
        s < width,
    ensures
        bf_row(g, s, width, k)[s as int] is Value,
        bf_row(g, s, width, k)[s as int]->Value_0 <= 0,
    decreases k,
{
    lemma_row_len(g, s, width, k);
    if k == 0 {
    } else {
        let km1 = (k - 1) as nat;
        lemma_row_source_le_zero(g, s, width, km1);
        lemma_row_len(g, s, width, km1);
        lemma_rows_nonincreasing(g, s, width, k);
        lemma_row_variants(g, s, width, k);
        assert(mm_le(bf_row(g, s, width, k)[s as int], bf_row(g, s, width, km1)[s as int]));
    }
}

/// At a fixpoint, distances never undercut any registered path: along a
/// chain of edges registered in each successor's incoming set, the row
/// value of the last vertex is finite and at most the head's value plus
/// the path weight.
pub proof fn lemma_fixpoint_path_bound(
    g: DirectedGraph,
    s: usize,
    width: nat,
    k: nat,
    path: Seq<usize>,
    eids: Seq<usize>,
)
    requires
        g.wf(),
        k >= 1,
        bf_row(g, s, width, k) == bf_row(g, s, width, (k - 1) as nat),
        path.len() >= 1,
        edge_ids_connect(g, path, eids),
        forall|i: int|
            0 <= i < path.len() ==> (#[trigger] path[i] as int) < width && g.has_vertex(path[i]),
        bf_row(g, s, width, k)[path[0] as int] is Value,
    ensures
        bf_row(g, s, width, k)[path[path.len() - 1] as int] is Value,
        bf_row(g, s, width, k)[path[path.len() - 1] as int]->Value_0 <= bf_row(
            g,
            s,
            width,
            k,
        )[path[0] as int]->Value_0 + weight_sum(g, eids),
    decreases path.len(),
{
    lemma_row_len(g, s, width, k);
    if path.len() == 1 {
        assert(eids.len() == 0);
    } else {
        let n = path.len() as int;
        let prefix = path.drop_last();
        let epre = eids.drop_last();
        assert forall|i: int|
            0 <= i < epre.len() implies g.incoming_ids(prefix[i + 1]).contains(#[trigger] epre[i])
            && g.edge_of(epre[i]).source == prefix[i] by {
            assert(epre[i] == eids[i]);
            assert(prefix[i] == path[i]);
            assert(prefix[i + 1] == path[i + 1]);
        }
        assert forall|i: int|
            0 <= i < prefix.len() implies (#[trigger] prefix[i] as int) < width && g.has_vertex(
            prefix[i],
        ) by {
            assert(prefix[i] == path[i]);
        }
        lemma_fixpoint_path_bound(g, s, width, k, prefix, epre);
        let u = path[n - 2];
        let v = path[n - 1];
        let eid = eids[n - 2];
        assert(g.incoming_ids(v).contains(eid));
        assert(g.edge_of(eid).source == u);
        lemma_reweighting_nonnegative(g, s, width, k, v, eid);
        assert(eids.drop_last() == epre);
        assert(weight_sum(g, eids) == weight_sum(g, epre) + g.edge_of(eids.last()).weight);
        assert(eids.last() == eid);
    }
}

/// A cycle of negative total weight reachable from the start vertex forces
/// the negative-cycle flag: were the computation converged, the row values
/// along the reachable cycle would telescope to a non-negative total.
#[verifier::rlimit(100)]
#[verifier::spinoff_prover]
pub proof fn lemma_negative_cycle_forces_flag(
    b: Bellman,
    g: DirectedGraph,
    s: usize,
    reach_path: Seq<usize>,
    reach_eids: Seq<usize>,
    cycle: Seq<usize>,
    cycle_eids: Seq<usize>,
)
    requires
        g.wf(),
        b.computed(g, s),
        b.num_vertex >= 2,
        s < b.num_vertex,
        reach_path.len() >= 1,
        reach_path[0] == s,
        edge_ids_connect(g, reach_path, reach_eids),
        forall|i: int|
            0 <= i < reach_path.len() ==> (#[trigger] reach_path[i] as int) < b.num_vertex
                && g.has_vertex(reach_path[i]),
        cycle.len() >= 2,
        cycle[0] == cycle[cycle.len() - 1],
        cycle[0] == reach_path[reach_path.len() - 1],
        edge_ids_connect(g, cycle, cycle_eids),
        forall|i: int|
            0 <= i < cycle.len() ==> (#[trigger] cycle[i] as int) < b.num_vertex && g.has_vertex(
                cycle[i],
            ),
        weight_sum(g, cycle_eids) < 0,
    ensures
        b.found_negative_cycle,
{
    let w = b.num_vertex as nat;
    let n = b.iterations as int;
    if !b.found_negative_cycle {
        assert(converged_at(g, s, w, n - 1));
        let k = (n - 1) as nat;
        assert(k >= 1);
        lemma_row_source_le_zero(g, s, w, k);
        lemma_fixpoint_path_bound(g, s, w, k, reach_path, reach_eids);
        assert(bf_row(g, s, w, k)[cycle[0] as int] is Value);
        lemma_fixpoint_path_bound(g, s, w, k, cycle, cycle_eids);
        assert(bf_row(g, s, w, k)[cycle[cycle.len() - 1] as int] == bf_row(g, s, w, k)[
            cycle[0] as int]);
        assert(false);
    }
}

} // verus!
