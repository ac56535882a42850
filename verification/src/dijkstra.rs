//! The Dijkstra engine: greedy label-setting over two vertex sets, the
//! unprocessed pool (a priority queue keyed by the current best-known
//! distance) and the processed map of finalized vertices.
//!
//! The queue is a dense id-indexed pool scanned for its minimum; ties are
//! broken by the smaller vertex id, so extraction is deterministic.  Every
//! finalized finite distance carries a relaxation witness: an edge from an
//! earlier-finalized vertex whose score plus the edge weight equals it.

use crate::bellman::MAX_TABLE_WIDTH;
use crate::bellman::weights_bounded;
use crate::dirgraph::DirectedGraph;
use crate::minmax::MinMax;
use crate::minmax::mm_int;
use crate::minmax::mm_lt;
use vstd::prelude::*;

verus! {

/// Bound on the magnitude of an edge weight accepted by the Dijkstra
/// engine; wide enough for Johnson's reweighted edges, and together with
/// `MAX_TABLE_WIDTH` it keeps every score sum inside `i64`.
pub const MAX_DIJKSTRA_WEIGHT: i64 = 100000000 * 200001;

/// A vertex's scoring state: its current best-known distance and the
/// preceding vertex on the path that produced it.
#[derive(Debug, Clone, Copy)]
pub struct VertexInfo {
    pub score: MinMax<i64>,
    pub preceeding_vertex: Option<usize>,
}

/// How many slots of a dense pool are occupied.
pub open spec fn count_some<T>(s: Seq<Option<T>>) -> nat
    decreases s.len(),
{
    if s.len() == 0 {
        0
    } else {
        count_some(s.drop_last()) + if s.last() is Some {
            1nat
        } else {
            0nat
        }
    }
}

/// Updating one slot changes the occupancy count by the difference of the
/// old and new slot states.
pub proof fn lemma_count_some_update<T>(s: Seq<Option<T>>, i: int, x: Option<T>)
    requires
        0 <= i < s.len(),
    ensures
        count_some(s.update(i, x)) + (if s[i] is Some {
            1nat
        } else {
            0nat
        }) == count_some(s) + (if x is Some {
            1nat
        } else {
            0nat
        }),
    decreases s.len(),
{
    let t = s.update(i, x);
    if i == s.len() - 1 {
        assert(t.drop_last() =~= s.drop_last());
    } else {
        assert(t.drop_last() =~= s.drop_last().update(i, x));
        lemma_count_some_update(s.drop_last(), i, x);
        assert(t.last() == s.last());
    }
}

/// Occupancy never exceeds the pool size.
pub proof fn lemma_count_some_le_len<T>(s: Seq<Option<T>>)
    ensures
        count_some(s) <= s.len(),
    decreases s.len(),
{
    if s.len() > 0 {
        lemma_count_some_le_len(s.drop_last());
    }
}

/// The Dijkstra engine.
pub struct Dijkstra {
    /// Starting vertex for the algorithm.
    pub starting_vertex: usize,
    /// The unprocessed pool: slot `v` holds vertex `v`'s queued key while
    /// it awaits processing.
    pub unprocessed_vertex: Vec<Option<MinMax<i64>>>,
    /// The processed map: slot `v` holds vertex `v`'s finalized scoring
    /// state.
    pub processed_vertex: Vec<Option<VertexInfo>>,
    /// Slot `v` holds the preceding vertex on the best path to `v` found so
    /// far, `None` for the source or an unreached vertex.
    pub predecessor: Vec<Option<usize>>,
    /// The finalization order, oldest first; predecessor links always point
    /// at an earlier entry, so reconstruction cannot cycle.
    pub finalized: Ghost<Seq<usize>>,
}

impl Dijkstra {
    pub open spec fn pool_len(self) -> nat {
        self.unprocessed_vertex@.len()
    }

    pub open spec fn in_queue(self, v: int) -> bool {
        0 <= v < self.pool_len() && self.unprocessed_vertex@[v] is Some
    }

    pub open spec fn queue_key(self, v: int) -> MinMax<int> {
        mm_int(self.unprocessed_vertex@[v]->0)
    }

    pub open spec fn processed(self, v: int) -> bool {
        0 <= v < self.pool_len() && self.processed_vertex@[v] is Some
    }

    pub open spec fn score(self, v: int) -> MinMax<int> {
        mm_int(self.processed_vertex@[v]->0.score)
    }

    pub open spec fn wf(self) -> bool {
        &&& self.processed_vertex@.len() == self.pool_len()
        &&& self.predecessor@.len() == self.pool_len()
        &&& self.pool_len() <= MAX_TABLE_WIDTH
        &&& forall|v: int| 0 <= v < self.pool_len() ==> !(self.in_queue(v) && #[trigger] self.processed(v))
    }

    /// The running invariant, against the graph the engine was driven
    /// with.  Every finalized finite score except the source's carries a
    /// relaxation witness; queued finite keys carry one against an
    /// already-finalized vertex; all magnitudes stay bounded by the number
    /// of finalized vertices.
    pub open spec fn inv(self, g: DirectedGraph) -> bool {
        let pc = count_some(self.processed_vertex@) as int;
        &&& self.wf()
        &&& (self.processed(self.starting_vertex as int) ==> self.score(
            self.starting_vertex as int,
        ) == MinMax::<int>::Value(0) && self.predecessor@[self.starting_vertex as int] is None)
        &&& forall|v: int|
            0 <= v < self.pool_len() && #[trigger] self.processed(v)
                ==> self.processed_vertex@[v]->0.preceeding_vertex == self.predecessor@[v]
        &&& forall|v: int|
            0 <= v < self.pool_len() && #[trigger] self.predecessor@[v] is Some
                ==> self.predecessor@[v]->0 < self.pool_len() && self.processed(
                self.predecessor@[v]->0 as int,
            )
        &&& forall|v: int|
            0 <= v < self.pool_len() && #[trigger] self.processed(v) && self.score(v) is Value
                && v != self.starting_vertex as int ==> relax_witness(
                self,
                g,
                v,
                self.score(v),
            )
        &&& forall|v: int|
            0 <= v < self.pool_len() && #[trigger] self.in_queue(v) && self.queue_key(v) is Value
                ==> relax_witness(self, g, v, self.queue_key(v))
        &&& forall|v: int|
            0 <= v < self.pool_len() && #[trigger] self.predecessor@[v] is Some ==> pred_edge(
                self,
                g,
                v,
            )
        &&& forall|v: int|
            0 <= v < self.pool_len() && #[trigger] self.processed(v) ==> (self.score(v) is Value
                || self.score(v) is Max)
        &&& forall|v: int|
            0 <= v < self.pool_len() && #[trigger] self.in_queue(v) ==> (self.queue_key(
                v,
            ) is Value || self.queue_key(v) is Max)
        &&& forall|v: int|
            0 <= v < self.pool_len() && #[trigger] self.processed(v) && self.score(v) is Value
                ==> -pc * MAX_DIJKSTRA_WEIGHT <= self.score(v)->Value_0 <= pc
                * MAX_DIJKSTRA_WEIGHT
        &&& forall|v: int|
            0 <= v < self.pool_len() && #[trigger] self.in_queue(v) && self.queue_key(v) is Value
                ==> -(pc + 1) * MAX_DIJKSTRA_WEIGHT <= self.queue_key(v)->Value_0 <= (pc + 1)
                * MAX_DIJKSTRA_WEIGHT
    }
}

/// A relaxation witness for a distance `d` at vertex `v`: the recorded
/// predecessor is a finalized vertex with an edge into `v` whose finite
/// score plus the edge weight equals `d`.
#[verifier::opaque]
pub open spec fn relax_witness(d: Dijkstra, g: DirectedGraph, v: int, val: MinMax<int>) -> bool {
    exists|eid: usize|
        {
            &&& d.predecessor@[v] is Some
            &&& d.predecessor@[v]->0 < d.pool_len()
            &&& d.processed(d.predecessor@[v]->0 as int)
            &&& d.score(d.predecessor@[v]->0 as int) is Value
            &&& #[trigger] g.outgoing_ids(d.predecessor@[v]->0).contains(eid)
            &&& g.edge_of(eid).dest == v
            &&& val == MinMax::<int>::Value(
                d.score(d.predecessor@[v]->0 as int)->Value_0 + g.edge_of(eid).weight,
            )
        }
}


/// The recorded predecessor of a vertex has an edge into it.
#[verifier::opaque]
pub open spec fn pred_edge(d: Dijkstra, g: DirectedGraph, v: int) -> bool {
    exists|eid: usize|
        #[trigger] g.outgoing_ids(d.predecessor@[v]->0).contains(eid) && g.edge_of(eid).dest == v
}

/// The position of a finalized vertex in the finalization order.
pub open spec fn fin_rank(d: Dijkstra, v: usize) -> int {
    choose|i: int| 0 <= i < d.finalized@.len() && d.finalized@[i] == v
}

/// The predecessor links are well-founded: the finalization order lists
/// exactly the finalized vertices, without repetition, and every recorded
/// predecessor of a finalized vertex was finalized strictly earlier.
pub open spec fn pred_ranked(d: Dijkstra) -> bool {
    &&& d.finalized@.len() == count_some(d.processed_vertex@)
    &&& forall|i: int|
        0 <= i < d.finalized@.len() ==> (#[trigger] d.finalized@[i] as int) < d.pool_len()
    &&& forall|i: int, j: int|
        0 <= i < j < d.finalized@.len() ==> d.finalized@[i] != d.finalized@[j]
    &&& forall|v: int|
        0 <= v < d.pool_len() ==> (#[trigger] d.processed(v) <==> d.finalized@.contains(
            v as usize,
        ))
    &&& forall|v: int|
        0 <= v < d.pool_len() && #[trigger] d.predecessor@[v] is Some ==> (
        d.predecessor@[v]->0 as int) < d.pool_len() && d.processed(d.predecessor@[v]->0 as int)
    &&& forall|i: int|
        0 <= i < d.finalized@.len() && #[trigger] d.predecessor@[d.finalized@[i] as int]
            is Some ==> exists|j: int|
            0 <= j < i && d.finalized@[j] == d.predecessor@[d.finalized@[i] as int]->0
}

/// In a well-founded order, a listed vertex's position is unique.
pub proof fn lemma_fin_rank(d: Dijkstra, v: usize, i: int)
    requires
        forall|a: int, b: int|
            0 <= a < b < d.finalized@.len() ==> d.finalized@[a] != d.finalized@[b],
        0 <= i < d.finalized@.len(),
        d.finalized@[i] == v,
    ensures
        fin_rank(d, v) == i,
{
    let j = fin_rank(d, v);
    assert(0 <= j < d.finalized@.len() && d.finalized@[j] == v);
    if i < j {
        assert(d.finalized@[i] != d.finalized@[j]);
    } else if j < i {
        assert(d.finalized@[j] != d.finalized@[i]);
    }
}

/// An untouched engine is trivially well-founded.
proof fn lemma_initialized_ranked(d: Dijkstra)
    requires
        d.is_initialized(),
    ensures
        pred_ranked(d),
{
    assert forall|i: int|
        0 <= i < d.processed_vertex@.len() implies !(#[trigger] d.processed_vertex@[i]
        is Some) by {
        assert(!d.processed(i));
    }
    lemma_count_some_zero(d.processed_vertex@);
    assert forall|v: int|
        0 <= v < d.pool_len() implies (#[trigger] d.processed(v) <==> d.finalized@.contains(
        v as usize,
    )) by {
        assert(!d.processed(v));
    }
}

/// Finalizing the start vertex founds the order with a single entry.
proof fn lemma_rank_start(dpre: Dijkstra, dpost: Dijkstra, start: usize)
    requires
        dpre.is_initialized(),
        dpre.in_queue(start as int),
        dpost.pool_len() == dpre.pool_len(),
        dpost.processed_vertex@ == dpre.processed_vertex@.update(
            start as int,
            Some(VertexInfo { score: MinMax::Value(0i64), preceeding_vertex: None }),
        ),
        dpost.predecessor@ == dpre.predecessor@.update(start as int, None),
        dpost.finalized@ == Seq::empty().push(start),
    ensures
        pred_ranked(dpost),
{
    assert forall|i: int|
        0 <= i < dpre.processed_vertex@.len() implies !(#[trigger] dpre.processed_vertex@[i]
        is Some) by {
        assert(!dpre.processed(i));
    }
    lemma_count_some_zero(dpre.processed_vertex@);
    lemma_count_some_update(
        dpre.processed_vertex@,
        start as int,
        Some(VertexInfo { score: MinMax::Value(0i64), preceeding_vertex: None }),
    );
    assert(dpost.finalized@.len() == 1);
    assert(dpost.finalized@[0] == start);
    assert forall|v: int|
        0 <= v < dpost.pool_len() implies (#[trigger] dpost.processed(v)
        <==> dpost.finalized@.contains(v as usize)) by {
        if v != start as int {
            assert(dpost.processed_vertex@[v] == dpre.processed_vertex@[v]);
            assert(!dpre.processed(v));
            if dpost.finalized@.contains(v as usize) {
                let i = choose|i: int|
                    0 <= i < dpost.finalized@.len() && dpost.finalized@[i] == v as usize;
                assert(i == 0);
            }
        } else {
            assert(dpost.finalized@[0] == v as usize);
        }
    }
    assert forall|v: int|
        0 <= v < dpost.pool_len() && #[trigger] dpost.predecessor@[v] is Some implies (
    dpost.predecessor@[v]->0 as int) < dpost.pool_len() && dpost.processed(
        dpost.predecessor@[v]->0 as int,
    ) by {
        if v != start as int {
            assert(dpost.predecessor@[v] == dpre.predecessor@[v]);
            assert(dpre.predecessor@[v] is None);
        }
    }
}

/// Finalizing a popped vertex appends it to the order; its recorded
/// predecessor, if any, was already listed.
proof fn lemma_rank_finalize(
    d1: Dijkstra,
    dpost: Dijkstra,
    next: usize,
    key: MinMax<i64>,
)
    requires
        pred_ranked(d1),
        d1.wf(),
        d1.in_queue(next as int),
        dpost.pool_len() == d1.pool_len(),
        dpost.processed_vertex@ == d1.processed_vertex@.update(
            next as int,
            Some(VertexInfo { score: key, preceeding_vertex: d1.predecessor@[next as int] }),
        ),
        dpost.predecessor@ == d1.predecessor@,
        dpost.finalized@ == d1.finalized@.push(next),
    ensures
        pred_ranked(dpost),
{
    assert(!d1.processed(next as int));
    assert(!d1.finalized@.contains(next));
    lemma_count_some_update(
        d1.processed_vertex@,
        next as int,
        Some(VertexInfo { score: key, preceeding_vertex: d1.predecessor@[next as int] }),
    );
    let n0 = d1.finalized@.len() as int;
    assert forall|i: int, j: int|
        0 <= i < j < dpost.finalized@.len() implies dpost.finalized@[i]
        != dpost.finalized@[j] by {
        if j < n0 {
        } else {
            assert(dpost.finalized@[j] == next);
            assert(dpost.finalized@[i] == d1.finalized@[i]);
            if d1.finalized@[i] == next {
                assert(d1.finalized@.contains(next));
            }
        }
    }
    assert forall|v: int|
        0 <= v < dpost.pool_len() implies (#[trigger] dpost.processed(v)
        <==> dpost.finalized@.contains(v as usize)) by {
        if v == next as int {
            assert(dpost.finalized@[n0] == v as usize);
            assert(dpost.finalized@.contains(v as usize));
            assert(dpost.processed_vertex@[v] is Some);
            assert(dpost.processed(v));
        } else {
            assert(dpost.processed_vertex@[v] == d1.processed_vertex@[v]);
            assert(dpost.processed(v) == d1.processed(v));
            if dpost.finalized@.contains(v as usize) {
                let i = choose|i: int|
                    0 <= i < dpost.finalized@.len() && dpost.finalized@[i] == v as usize;
                assert(i < n0);
                assert(d1.finalized@[i] == v as usize);
                assert(d1.finalized@.contains(v as usize));
            }
            if d1.finalized@.contains(v as usize) {
                let i = choose|i: int|
                    0 <= i < d1.finalized@.len() && d1.finalized@[i] == v as usize;
                assert(dpost.finalized@[i] == v as usize);
            }
        }
    }
    assert forall|v: int|
        0 <= v < dpost.pool_len() && #[trigger] dpost.predecessor@[v] is Some implies (
    dpost.predecessor@[v]->0 as int) < dpost.pool_len() && dpost.processed(
        dpost.predecessor@[v]->0 as int,
    ) by {
        assert(d1.predecessor@[v] is Some);
        assert(d1.processed(d1.predecessor@[v]->0 as int));
        let u = d1.predecessor@[v]->0 as int;
        if u != next as int {
            assert(dpost.processed_vertex@[u] == d1.processed_vertex@[u]);
        }
    }
    assert forall|i: int|
        0 <= i < dpost.finalized@.len() && #[trigger] dpost.predecessor@[dpost.finalized@[
        i] as int] is Some implies exists|j: int|
        0 <= j < i && dpost.finalized@[j] == dpost.predecessor@[dpost.finalized@[i] as int]->0 by {
        if i < n0 {
            assert(dpost.finalized@[i] == d1.finalized@[i]);
            assert(d1.predecessor@[d1.finalized@[i] as int] is Some);
            let j = choose|j: int|
                0 <= j < i && d1.finalized@[j] == d1.predecessor@[d1.finalized@[i] as int]->0;
            assert(dpost.finalized@[j] == d1.finalized@[j]);
        } else {
            assert(dpost.finalized@[i] == next);
            let u = d1.predecessor@[next as int]->0;
            assert(d1.processed(u as int));
            assert(d1.finalized@.contains(u));
            let j = choose|j: int| 0 <= j < d1.finalized@.len() && d1.finalized@[j] == u;
            assert(dpost.finalized@[j] == u);
        }
    }
}

/// Relaxation keeps the order well-founded: predecessors change only at
/// still-queued slots, and always to the just-finalized vertex.
proof fn lemma_rank_relax(d2: Dijkstra, d4: Dijkstra, cur: usize)
    requires
        pred_ranked(d2),
        cur < d2.pool_len(),
        d2.processed(cur as int),
        d4.pool_len() == d2.pool_len(),
        d4.processed_vertex == d2.processed_vertex,
        d4.finalized == d2.finalized,
        forall|v: int|
            0 <= v < d2.pool_len() ==> (#[trigger] d4.predecessor@[v] == d2.predecessor@[v] || (
            d2.in_queue(v) && d4.predecessor@[v] == Some(cur))),
        forall|v: int| 0 <= v < d2.pool_len() ==> !(d2.in_queue(v) && #[trigger] d2.processed(v)),
        d4.predecessor@.len() == d2.predecessor@.len(),
    ensures
        pred_ranked(d4),
{
    assert(count_some(d4.processed_vertex@) == count_some(d2.processed_vertex@));
    assert forall|v: int|
        0 <= v < d4.pool_len() implies (#[trigger] d4.processed(v) == d2.processed(v)) by {}
    assert forall|v: int|
        0 <= v < d4.pool_len() implies (#[trigger] d4.processed(v) <==> d4.finalized@.contains(
        v as usize,
    )) by {
        assert(d2.processed(v) <==> d2.finalized@.contains(v as usize));
    }
    assert forall|v: int|
        0 <= v < d4.pool_len() && #[trigger] d4.predecessor@[v] is Some implies (
    d4.predecessor@[v]->0 as int) < d4.pool_len() && d4.processed(
        d4.predecessor@[v]->0 as int,
    ) by {
        if d4.predecessor@[v] == d2.predecessor@[v] {
            assert(d2.predecessor@[v] is Some);
        } else {
            assert(d4.predecessor@[v] == Some(cur));
        }
    }
    assert forall|i: int|
        0 <= i < d4.finalized@.len() && #[trigger] d4.predecessor@[d4.finalized@[i] as int]
        is Some implies exists|j: int|
        0 <= j < i && d4.finalized@[j] == d4.predecessor@[d4.finalized@[i] as int]->0 by {
        let v = d4.finalized@[i] as int;
        assert(d2.finalized@.contains(d2.finalized@[i]));
        assert(d2.processed(v));
        assert(!d2.in_queue(v));
        assert(d4.predecessor@[v] == d2.predecessor@[v]);
        let j = choose|j: int|
            0 <= j < i && d2.finalized@[j] == d2.predecessor@[d2.finalized@[i] as int]->0;
        assert(d4.finalized@[j] == d2.finalized@[j]);
    }
}

/// The key a queued vertex `v` holds after the first `n` outgoing edges of
/// a vertex with finite score `d` have been relaxed against it, starting
/// from `base`: each matching edge lowers the key to `d` plus its weight
/// whenever that is strictly smaller.
pub open spec fn relax_keys(
    g: DirectedGraph,
    d: int,
    ids: Seq<usize>,
    n: int,
    v: int,
    base: MinMax<int>,
) -> MinMax<int>
    decreases n,
{
    if n <= 0 {
        base
    } else {
        let prior = relax_keys(g, d, ids, n - 1, v, base);
        if g.edge_of(ids[n - 1]).dest == v && mm_lt(
            MinMax::Value(d + g.edge_of(ids[n - 1]).weight),
            prior,
        ) {
            MinMax::Value(d + g.edge_of(ids[n - 1]).weight)
        } else {
            prior
        }
    }
}

/// Relaxation never raises a key.
pub proof fn lemma_relax_keys_le_base(
    g: DirectedGraph,
    d: int,
    ids: Seq<usize>,
    n: int,
    v: int,
    base: MinMax<int>,
)
    ensures
        crate::bellman::mm_le(relax_keys(g, d, ids, n, v, base), base),
    decreases n,
{
    if n > 0 {
        lemma_relax_keys_le_base(g, d, ids, n - 1, v, base);
        let prior = relax_keys(g, d, ids, n - 1, v, base);
        if g.edge_of(ids[n - 1]).dest == v && mm_lt(
            MinMax::Value(d + g.edge_of(ids[n - 1]).weight),
            prior,
        ) {
            crate::bellman::lemma_mm_lt_le_trans(
                MinMax::Value(d + g.edge_of(ids[n - 1]).weight),
                prior,
                base,
            );
        }
    }
}

/// Later relaxation prefixes only lower the key further.
pub proof fn lemma_relax_keys_le_prefix(
    g: DirectedGraph,
    d: int,
    ids: Seq<usize>,
    n: int,
    m: int,
    v: int,
    base: MinMax<int>,
)
    requires
        0 <= m <= n,
    ensures
        crate::bellman::mm_le(
            relax_keys(g, d, ids, n, v, base),
            relax_keys(g, d, ids, m, v, base),
        ),
    decreases n - m,
{
    if m < n {
        lemma_relax_keys_le_prefix(g, d, ids, n - 1, m, v, base);
        let prior = relax_keys(g, d, ids, n - 1, v, base);
        if g.edge_of(ids[n - 1]).dest == v && mm_lt(
            MinMax::Value(d + g.edge_of(ids[n - 1]).weight),
            prior,
        ) {
            crate::bellman::lemma_mm_lt_le_trans(
                MinMax::Value(d + g.edge_of(ids[n - 1]).weight),
                prior,
                relax_keys(g, d, ids, m, v, base),
            );
        }
    }
}

/// After a full sweep, the key is at most each matching edge's candidate.
pub proof fn lemma_relax_keys_le_cand(
    g: DirectedGraph,
    d: int,
    ids: Seq<usize>,
    n: int,
    j: int,
    v: int,
    base: MinMax<int>,
)
    requires
        0 <= j < n,
        g.edge_of(ids[j]).dest == v,
    ensures
        crate::bellman::mm_le(
            relax_keys(g, d, ids, n, v, base),
            MinMax::Value(d + g.edge_of(ids[j]).weight),
        ),
{
    let c = MinMax::<int>::Value(d + g.edge_of(ids[j]).weight);
    let prior = relax_keys(g, d, ids, j, v, base);
    if mm_lt(c, prior) {
        assert(relax_keys(g, d, ids, j + 1, v, base) == c);
    } else {
        crate::bellman::lemma_mm_total(c, prior);
        assert(crate::bellman::mm_le(relax_keys(g, d, ids, j + 1, v, base), c));
    }
    lemma_relax_keys_le_prefix(g, d, ids, n, j + 1, v, base);
    crate::bellman::lemma_mm_le_trans(
        relax_keys(g, d, ids, n, v, base),
        relax_keys(g, d, ids, j + 1, v, base),
        c,
    );
}

/// With non-negative weights, relaxation never drops a key below the
/// relaxing vertex's own score.
pub proof fn lemma_relax_keys_ge(
    g: DirectedGraph,
    d: int,
    ids: Seq<usize>,
    n: int,
    v: int,
    base: MinMax<int>,
)
    requires
        forall|j: int| 0 <= j < n ==> g.edge_of(#[trigger] ids[j]).weight >= 0,
    ensures
        relax_keys(g, d, ids, n, v, base) == base || (relax_keys(g, d, ids, n, v, base) is Value
            && relax_keys(g, d, ids, n, v, base)->Value_0 >= d),
    decreases n,
{
    if n > 0 {
        lemma_relax_keys_ge(g, d, ids, n - 1, v, base);
    }
}

/// Every edge weight is non-negative; Johnson's reweighting guarantees
/// this for the graphs it hands to Dijkstra.
pub open spec fn nonneg_weights(g: DirectedGraph) -> bool {
    forall|e: usize| #[trigger] g.has_edge(e) ==> g.edge_of(e).weight >= 0
}

/// One outgoing edge of a finalized vertex is settled: the target's
/// current label (finalized score or queued key) is at most the source's
/// score plus the edge weight.
pub open spec fn settled_edge(d: Dijkstra, g: DirectedGraph, u: int, eid: usize) -> bool {
    &&& (d.processed(g.edge_of(eid).dest as int) ==> crate::bellman::mm_le(
        d.score(g.edge_of(eid).dest as int),
        MinMax::Value(d.score(u)->Value_0 + g.edge_of(eid).weight),
    ))
    &&& (d.in_queue(g.edge_of(eid).dest as int) ==> crate::bellman::mm_le(
        d.queue_key(g.edge_of(eid).dest as int),
        MinMax::Value(d.score(u)->Value_0 + g.edge_of(eid).weight),
    ))
}

/// No relaxable edge remains: every outgoing edge of every finalized
/// vertex with a finite score is settled.
pub open spec fn settled(d: Dijkstra, g: DirectedGraph) -> bool {
    forall|u: int, eid: usize|
        0 <= u < d.pool_len() && d.processed(u) && d.score(u) is Value && #[trigger] g.outgoing_ids(
            u as usize,
        ).contains(eid) ==> settled_edge(d, g, u, eid)
}

/// Label-setting order: every queued key is at least every finalized
/// score.
pub open spec fn dominance(d: Dijkstra) -> bool {
    forall|u: int, v: int|
        0 <= u < d.pool_len() && 0 <= v < d.pool_len() && #[trigger] d.processed(u)
            && #[trigger] d.in_queue(v) ==> crate::bellman::mm_le(d.score(u), d.queue_key(v))
}

/// A relaxation witness survives any step that keeps the vertex's recorded
/// predecessor and every finalized vertex's score.
pub proof fn lemma_witness_stable(
    d1: Dijkstra,
    d2: Dijkstra,
    g: DirectedGraph,
    v: int,
    val: MinMax<int>,
)
    requires
        relax_witness(d1, g, v, val),
        d2.pool_len() == d1.pool_len(),
        0 <= v < d1.predecessor@.len(),
        d2.predecessor@.len() == d1.predecessor@.len(),
        d2.predecessor@[v] == d1.predecessor@[v],
        forall|u: int|
            0 <= u < d1.pool_len() && #[trigger] d1.processed(u) ==> d2.processed(u) && d2.score(
                u,
            ) == d1.score(u),
    ensures
        relax_witness(d2, g, v, val),
{
    reveal(relax_witness);
    let eid = choose|eid: usize|
        {
            &&& d1.predecessor@[v] is Some
            &&& d1.predecessor@[v]->0 < d1.pool_len()
            &&& d1.processed(d1.predecessor@[v]->0 as int)
            &&& d1.score(d1.predecessor@[v]->0 as int) is Value
            &&& #[trigger] g.outgoing_ids(d1.predecessor@[v]->0).contains(eid)
            &&& g.edge_of(eid).dest == v
            &&& val == MinMax::<int>::Value(
                d1.score(d1.predecessor@[v]->0 as int)->Value_0 + g.edge_of(eid).weight,
            )
        };
    assert(g.outgoing_ids(d2.predecessor@[v]->0).contains(eid));
}

/// Pools that agree slot-by-slot on occupancy have the same count.
pub proof fn lemma_count_some_congruent<T>(a: Seq<Option<T>>, b: Seq<Option<T>>)
    requires
        a.len() == b.len(),
        forall|i: int| 0 <= i < a.len() ==> (a[i] is Some <==> #[trigger] b[i] is Some),
    ensures
        count_some(a) == count_some(b),
    decreases a.len(),
{
    if a.len() > 0 {
        lemma_count_some_congruent(a.drop_last(), b.drop_last());
    }
}

impl Dijkstra {
    /// A freshly initialized pool: nothing finalized, every queued key
    /// still `Max`, no predecessors recorded.
    pub open spec fn is_initialized(self) -> bool {
        &&& self.wf()
        &&& self.finalized@.len() == 0
        &&& forall|v: int| 0 <= v < self.pool_len() ==> !#[trigger] self.processed(v)
        &&& forall|v: int|
            0 <= v < self.pool_len() && #[trigger] self.in_queue(v) ==> self.queue_key(v)
                == MinMax::<int>::Max
        &&& forall|v: int| 0 <= v < self.pool_len() ==> #[trigger] self.predecessor@[v] is None
    }

    pub fn new(starting_vertex: usize) -> (d: Dijkstra)
        ensures
            d.is_initialized(),
            d.pool_len() == 0,
            d.starting_vertex == starting_vertex,
    {
        Dijkstra {
            starting_vertex,
            unprocessed_vertex: Vec::new(),
            processed_vertex: Vec::new(),
            predecessor: Vec::new(),
            finalized: Ghost(Seq::empty()),
        }
    }

    /// Adds a vertex to the unprocessed pool at the maximum key.
    pub fn initialize_vertex(&mut self, vertex_id: usize)
        requires
            old(self).is_initialized(),
            vertex_id < MAX_TABLE_WIDTH,
        ensures
            final(self).is_initialized(),
            final(self).starting_vertex == old(self).starting_vertex,
            final(self).in_queue(vertex_id as int),
            forall|v: int|
                0 <= v < final(self).pool_len() ==> (final(self).in_queue(v) <==> (old(self).in_queue(v) || v == vertex_id)),
            final(self).finalized == old(self).finalized,
            old(self).pool_len() <= final(self).pool_len() <= MAX_TABLE_WIDTH,
            final(self).pool_len() == (if old(self).pool_len() >= vertex_id + 1 {
                old(self).pool_len()
            } else {
                (vertex_id + 1) as nat
            }),
    {
        while self.unprocessed_vertex.len() <= vertex_id
            invariant
                old(self).is_initialized(),
                self.finalized == old(self).finalized,
                self.wf(),
                self.starting_vertex == old(self).starting_vertex,
                old(self).pool_len() <= self.pool_len(),
                self.pool_len() <= old(self).pool_len() || self.pool_len() <= vertex_id + 1,
                vertex_id < MAX_TABLE_WIDTH,
                forall|v: int|
                    0 <= v < self.pool_len() ==> (#[trigger] self.in_queue(v) <==> (old(self).in_queue(v))),
                forall|v: int| 0 <= v < self.pool_len() ==> !#[trigger] self.processed(v),
                forall|v: int|
                    0 <= v < self.pool_len() && #[trigger] self.in_queue(v) ==> self.queue_key(v)
                        == MinMax::<int>::Max,
                forall|v: int| 0 <= v < self.pool_len() ==> #[trigger] self.predecessor@[v] is None,
            decreases vertex_id + 1 - self.unprocessed_vertex.len(),
        {
            let ghost p = *self;
            self.unprocessed_vertex.push(None);
            self.processed_vertex.push(None);
            self.predecessor.push(None);
            proof {
                assert forall|v: int|
                    0 <= v < self.pool_len() implies (#[trigger] self.in_queue(v) <==> (old(self).in_queue(v))) by {
                    if v < p.pool_len() {
                        assert(self.unprocessed_vertex@[v] == p.unprocessed_vertex@[v]);
                        assert(self.in_queue(v) == p.in_queue(v));
                    } else {
                        assert(self.unprocessed_vertex@[v] is None);
                    }
                }
                assert forall|v: int|
                    0 <= v < self.pool_len() implies !#[trigger] self.processed(v) by {
                    if v < p.pool_len() {
                        assert(self.processed_vertex@[v] == p.processed_vertex@[v]);
                        assert(!p.processed(v));
                    } else {
                        assert(self.processed_vertex@[v] is None);
                    }
                }
                assert forall|v: int|
                    0 <= v < self.pool_len() && #[trigger] self.in_queue(v) implies self.queue_key(
                    v,
                ) == MinMax::<int>::Max by {
                    if v < p.pool_len() {
                        assert(self.unprocessed_vertex@[v] == p.unprocessed_vertex@[v]);
                        assert(p.in_queue(v));
                    }
                }
                assert forall|v: int|
                    0 <= v < self.pool_len() implies #[trigger] self.predecessor@[v] is None by {
                    if v < p.pool_len() {
                        assert(self.predecessor@[v] == p.predecessor@[v]);
                    }
                }
            }
        }
        let ghost dmid = *self;
        self.unprocessed_vertex.set(vertex_id, Some(MinMax::Max));
        proof {
            assert forall|v: int|
                0 <= v < self.pool_len() implies (#[trigger] self.in_queue(v) <==> (old(self).in_queue(v) || v == vertex_id)) by {
                if v != vertex_id {
                    assert(self.unprocessed_vertex@[v] == dmid.unprocessed_vertex@[v]);
                    assert(self.in_queue(v) == dmid.in_queue(v));
                    assert(dmid.in_queue(v) <==> old(self).in_queue(v));
                }
            }
            assert forall|v: int|
                0 <= v < self.pool_len() && #[trigger] self.in_queue(v) implies self.queue_key(v)
                == MinMax::<int>::Max by {
                if v != vertex_id {
                    assert(self.unprocessed_vertex@[v] == dmid.unprocessed_vertex@[v]);
                    assert(dmid.in_queue(v));
                }
            }
            assert forall|v: int| 0 <= v < self.pool_len() implies !#[trigger] self.processed(
                v,
            ) by {
                assert(self.processed_vertex@[v] == dmid.processed_vertex@[v]);
                assert(!dmid.processed(v));
            }
            assert forall|v: int|
                0 <= v < self.pool_len() implies !(self.in_queue(v)
                && #[trigger] self.processed(v)) by {
                assert(!self.processed(v));
            }
        }
    }

    /// Removes and returns the queue entry with the smallest key, ties
    /// broken by the smaller vertex id.
    fn extract_min(&mut self) -> (r: Option<(usize, MinMax<i64>)>)
        requires
            old(self).wf(),
        ensures
            final(self).wf(),
            final(self).starting_vertex == old(self).starting_vertex,
            final(self).pool_len() == old(self).pool_len(),
            final(self).processed_vertex == old(self).processed_vertex,
            final(self).predecessor == old(self).predecessor,
            final(self).finalized == old(self).finalized,
            r is None ==> *final(self) == *old(self) && forall|v: int|
                0 <= v < old(self).pool_len() ==> !#[trigger] old(self).in_queue(v),
            r matches Some((v, k)) ==> old(self).in_queue(v as int) && mm_int(k) == old(self).queue_key(v as int) && final(self).unprocessed_vertex@ == old(self).unprocessed_vertex@.update(v as int, None) && (forall|u: int|
                0 <= u < old(self).pool_len() && #[trigger] old(self).in_queue(u) ==> (mm_lt(
                    mm_int(k),
                    old(self).queue_key(u),
                ) || mm_int(k) == old(self).queue_key(u)) && (old(self).queue_key(u) == mm_int(k)
                    ==> v <= u)),
    {
        let ghost d0 = *self;
        let mut best: Option<(usize, MinMax<i64>)> = None;
        let mut i: usize = 0;
        while i < self.unprocessed_vertex.len()
            invariant
                *self == d0,
                d0.wf(),
                i <= d0.pool_len(),
                match best {
                    Option::None => forall|v: int| 0 <= v < i ==> !#[trigger] d0.in_queue(v),
                    Option::Some((bv, bk)) => d0.in_queue(bv as int) && bv < i && mm_int(bk)
                        == d0.queue_key(bv as int) && forall|u: int|
                        0 <= u < i && #[trigger] d0.in_queue(u) ==> (mm_lt(
                            mm_int(bk),
                            d0.queue_key(u),
                        ) || mm_int(bk) == d0.queue_key(u)) && (d0.queue_key(u) == mm_int(bk)
                            ==> bv <= u),
                },
            decreases d0.pool_len() - i,
        {
            match self.unprocessed_vertex[i] {
                Option::Some(key) => {
                    match &best {
                        Option::None => {
                            best = Some((i, key));
                        },
                        Option::Some((bv, bk)) => {
                            proof {
                                crate::bellman::lemma_mm_int_injective(key, *bk);
                            }
                            if key.lt(bk) {
                                best = Some((i, key));
                            }
                        },
                    }
                },
                Option::None => {},
            }
            i = i + 1;
        }
        match best {
            Option::Some((v, k)) => {
                self.unprocessed_vertex.set(v, None);
                proof {
                    assert(self.unprocessed_vertex@ == d0.unprocessed_vertex@.update(
                        v as int,
                        None,
                    ));
                    assert forall|u: int|
                        0 <= u < self.pool_len() implies !(self.in_queue(u)
                        && #[trigger] self.processed(u)) by {
                        assert(self.processed_vertex@[u] == d0.processed_vertex@[u]);
                        if u != v {
                            assert(self.unprocessed_vertex@[u] == d0.unprocessed_vertex@[u]);
                            assert(self.in_queue(u) == d0.in_queue(u));
                            assert(!(d0.in_queue(u) && d0.processed(u)));
                        } else {
                            assert(self.unprocessed_vertex@[u] is None);
                        }
                    }
                }
                Some((v, k))
            },
            Option::None => None,
        }
    }
}


/// A pool with no occupied slot has count zero.
pub proof fn lemma_count_some_zero<T>(s: Seq<Option<T>>)
    requires
        forall|i: int| 0 <= i < s.len() ==> !(#[trigger] s[i] is Some),
    ensures
        count_some(s) == 0,
    decreases s.len(),
{
    if s.len() > 0 {
        lemma_count_some_zero(s.drop_last());
    }
}

impl Dijkstra {
    /// Writes one decrease-key: the queued target takes the smaller key and
    /// the finalized vertex as predecessor.
    fn apply_decrease(
        &mut self,
        graph: &DirectedGraph,
        cur_vertex: usize,
        d: i64,
        dst: usize,
        nv: MinMax<i64>,
        Ghost(eid): Ghost<usize>,
    )
        requires
            old(self).inv(*graph),
            graph.wf(),
            cur_vertex < old(self).pool_len(),
            old(self).processed(cur_vertex as int),
            old(self).score(cur_vertex as int) == MinMax::<int>::Value(d as int),
            graph.has_edge(eid),
            graph.outgoing_ids(cur_vertex).contains(eid),
            graph.edge_of(eid).dest == dst,
            old(self).in_queue(dst as int),
            mm_int(nv) == MinMax::<int>::Value(d as int + graph.edge_of(eid).weight),
            -(count_some(old(self).processed_vertex@) as int + 1) * MAX_DIJKSTRA_WEIGHT
                <= nv->Value_0 <= (count_some(old(self).processed_vertex@) as int + 1)
                * MAX_DIJKSTRA_WEIGHT,
        ensures
            final(self).inv(*graph),
            final(self).pool_len() == old(self).pool_len(),
            final(self).starting_vertex == old(self).starting_vertex,
            final(self).processed_vertex == old(self).processed_vertex,
            forall|v: int|
                0 <= v < old(self).pool_len() ==> (final(self).in_queue(v) == old(self).in_queue(
                    v,
                )),
            final(self).unprocessed_vertex@ == old(self).unprocessed_vertex@.update(
                dst as int,
                Some(nv),
            ),
            final(self).predecessor@ == old(self).predecessor@.update(
                dst as int,
                Some(cur_vertex),
            ),
            final(self).finalized == old(self).finalized,
    {
        let ghost dpre = *self;
        self.unprocessed_vertex.set(dst, Some(nv));
        self.predecessor.set(dst, Some(cur_vertex));
        proof {
            lemma_decrease_inv(dpre, *self, *graph, cur_vertex, d, dst, nv, eid);
        }
    }

    /// Relaxes one outgoing edge of a finalized vertex against the queue.
    fn relax_one(
        &mut self,
        graph: &DirectedGraph,
        cur_vertex: usize,
        d: i64,
        e: crate::dirgraph::Edge,
        Ghost(eid): Ghost<usize>,
    )
        requires
            old(self).inv(*graph),
            graph.wf(),
            cur_vertex < old(self).pool_len(),
            old(self).processed(cur_vertex as int),
            old(self).score(cur_vertex as int) == MinMax::<int>::Value(d as int),
            graph.has_edge(eid),
            graph.edge_of(eid) == e,
            graph.outgoing_ids(cur_vertex).contains(eid),
            -MAX_DIJKSTRA_WEIGHT <= e.weight <= MAX_DIJKSTRA_WEIGHT,
        ensures
            final(self).inv(*graph),
            final(self).pool_len() == old(self).pool_len(),
            final(self).starting_vertex == old(self).starting_vertex,
            final(self).processed_vertex == old(self).processed_vertex,
            forall|v: int|
                0 <= v < old(self).pool_len() ==> (final(self).in_queue(v) == old(self).in_queue(
                    v,
                )),
            (old(self).in_queue(e.dest as int) && mm_lt(
                MinMax::Value(d as int + e.weight),
                old(self).queue_key(e.dest as int),
            )) ==> final(self).queue_key(e.dest as int) == MinMax::<int>::Value(d as int + e.weight)
                && final(self).predecessor@ == old(self).predecessor@.update(
                e.dest as int,
                Some(cur_vertex),
            ) && (forall|v: int|
                0 <= v < old(self).pool_len() && v != e.dest as int
                    ==> #[trigger] final(self).unprocessed_vertex@[v] == old(self).unprocessed_vertex@[v]),
            !(old(self).in_queue(e.dest as int) && mm_lt(
                MinMax::Value(d as int + e.weight),
                old(self).queue_key(e.dest as int),
            )) ==> *final(self) == *old(self),
            final(self).finalized == old(self).finalized,
    {
        if e.dest < self.unprocessed_vertex.len() {
            let dst = e.dest;
            let q = self.unprocessed_vertex[dst];
            match q {
                Option::Some(cur_key) => {
                    proof {
                        let pc = count_some(self.processed_vertex@) as int;
                        lemma_count_some_le_len(self.processed_vertex@);
                        assert(pc <= MAX_TABLE_WIDTH);
                        assert(-pc * MAX_DIJKSTRA_WEIGHT <= d as int <= pc * MAX_DIJKSTRA_WEIGHT);
                        assert(pc * MAX_DIJKSTRA_WEIGHT + MAX_DIJKSTRA_WEIGHT <= (100000 + 1)
                            * MAX_DIJKSTRA_WEIGHT) by (nonlinear_arith)
                            requires
                                0 <= pc <= 100000,
                                MAX_DIJKSTRA_WEIGHT > 0,
                        ;
                    }
                    let new_score = d + e.weight;
                    let nv = MinMax::Value(new_score);
                    proof {
                        crate::bellman::lemma_mm_int_injective(nv, cur_key);
                    }
                    if nv.lt(&cur_key) {
                        self.apply_decrease(graph, cur_vertex, d, dst, nv, Ghost(eid));
                    }
                },
                Option::None => {},
            }
        }
    }

    /// Relaxes every outgoing edge of a freshly finalized vertex: each
    /// still-queued target's key becomes the minimum of its old key and the
    /// vertex's score plus the edge weight, and it takes the vertex as
    /// predecessor exactly when its key strictly decreased.  Everything
    /// else is untouched.
    #[verifier::rlimit(100)]
    fn update_scoring(&mut self, graph: &DirectedGraph, cur_vertex: usize)
        requires
            old(self).inv(*graph),
            old(self).processed(cur_vertex as int),
            graph.wf(),
            graph.has_vertex(cur_vertex),
            weights_bounded(*graph, MAX_DIJKSTRA_WEIGHT),
        ensures
            final(self).inv(*graph),
            final(self).pool_len() == old(self).pool_len(),
            final(self).starting_vertex == old(self).starting_vertex,
            final(self).processed_vertex == old(self).processed_vertex,
            forall|v: int|
                0 <= v < old(self).pool_len() ==> (final(self).in_queue(v) == old(self).in_queue(
                    v,
                )),
            !(old(self).score(cur_vertex as int) is Value) ==> *final(self) == *old(self),
            final(self).finalized == old(self).finalized,
            old(self).score(cur_vertex as int) is Value ==> {
                let d = old(self).score(cur_vertex as int)->Value_0;
                let ids = graph.outgoing_ids(cur_vertex);
                &&& forall|v: int|
                    0 <= v < old(self).pool_len() && old(self).in_queue(v)
                        ==> #[trigger] final(self).queue_key(v) == relax_keys(
                        *graph,
                        d,
                        ids,
                        ids.len() as int,
                        v,
                        old(self).queue_key(v),
                    )
                &&& forall|v: int|
                    0 <= v < old(self).pool_len() && old(self).in_queue(v) && #[trigger] final(self).queue_key(v) != old(self).queue_key(v) ==> final(self).predecessor@[v]
                        == Some(cur_vertex)
                &&& forall|v: int|
                    0 <= v < old(self).pool_len() && old(self).in_queue(v) && #[trigger] final(self).queue_key(v) == old(self).queue_key(v) ==> final(self).predecessor@[v]
                        == old(self).predecessor@[v] && final(self).unprocessed_vertex@[v] == old(self).unprocessed_vertex@[v]
                &&& forall|v: int|
                    0 <= v < old(self).pool_len() && !old(self).in_queue(v)
                        ==> #[trigger] final(self).unprocessed_vertex@[v] == old(self).unprocessed_vertex@[v] && final(self).predecessor@[v] == old(self).predecessor@[v]
            },
    {
        let ghost g = *graph;
        let ghost d0 = *self;
        let cur_info = match self.processed_vertex[cur_vertex] {
            Option::Some(i) => i,
            Option::None => vstd::pervasive::unreached(),
        };
        let d: i64 = match cur_info.score {
            MinMax::Value(d) => d,
            _ => {
                return ;
            },
        };
        proof {
            lemma_count_some_le_len(self.processed_vertex@);
            assert(self.score(cur_vertex as int) == MinMax::<int>::Value(d as int));
        }
        let ghost ids = g.outgoing_ids(cur_vertex);
        let edges = graph.get_outgoing(cur_vertex);
        let mut j: usize = 0;
        while j < edges.len()
            invariant
                self.inv(g),
                g == *graph,
                graph.wf(),
                graph.has_vertex(cur_vertex),
                weights_bounded(g, MAX_DIJKSTRA_WEIGHT),
                self.pool_len() == d0.pool_len(),
                self.starting_vertex == d0.starting_vertex,
                self.processed_vertex == d0.processed_vertex,
                self.finalized == d0.finalized,
                forall|v: int|
                    0 <= v < d0.pool_len() ==> (#[trigger] self.in_queue(v) == d0.in_queue(v)),
                cur_vertex < self.pool_len(),
                self.processed(cur_vertex as int),
                self.score(cur_vertex as int) == MinMax::<int>::Value(d as int),
                ids == g.outgoing_ids(cur_vertex),
                edges@.len() == ids.len(),
                forall|k: int| 0 <= k < edges@.len() ==> edges@[k] == g.edge_of(ids[k]),
                j <= edges@.len(),
                forall|v: int|
                    0 <= v < d0.pool_len() && d0.in_queue(v) ==> #[trigger] self.queue_key(v)
                        == relax_keys(g, d as int, ids, j as int, v, d0.queue_key(v)),
                forall|v: int|
                    0 <= v < d0.pool_len() && d0.in_queue(v) && #[trigger] self.queue_key(v)
                        != d0.queue_key(v) ==> self.predecessor@[v] == Some(cur_vertex),
                forall|v: int|
                    0 <= v < d0.pool_len() && d0.in_queue(v) && #[trigger] self.queue_key(v)
                        == d0.queue_key(v) ==> self.predecessor@[v] == d0.predecessor@[v]
                        && self.unprocessed_vertex@[v] == d0.unprocessed_vertex@[v],
                forall|v: int|
                    0 <= v < d0.pool_len() && !d0.in_queue(v)
                        ==> #[trigger] self.unprocessed_vertex@[v] == d0.unprocessed_vertex@[v]
                        && self.predecessor@[v] == d0.predecessor@[v],
            decreases edges@.len() - j,
        {
            let e = edges[j];
            proof {
                assert(e == g.edge_of(ids[j as int]));
                let vi = g.vindex(cur_vertex);
                g.lemma_vindex(cur_vertex, vi);
                assert(g.vertex_map@[vi].outgoing@[j as int] == ids[j as int]);
                assert(g.has_edge(ids[j as int]));
                assert(-MAX_DIJKSTRA_WEIGHT <= e.weight <= MAX_DIJKSTRA_WEIGHT);
            }
            let ghost spre = *self;
            self.relax_one(graph, cur_vertex, d, e, Ghost(ids[j as int]));
            proof {
                let c = MinMax::<int>::Value(d as int + e.weight);
                let dst = e.dest as int;
                assert forall|v: int|
                    0 <= v < d0.pool_len() && d0.in_queue(v) implies #[trigger] self.queue_key(v)
                    == relax_keys(g, d as int, ids, j + 1 as int, v, d0.queue_key(v)) by {
                    let prior = relax_keys(g, d as int, ids, j as int, v, d0.queue_key(v));
                    assert(spre.queue_key(v) == prior);
                    if spre.in_queue(dst) && mm_lt(c, spre.queue_key(dst)) {
                        if v == dst {
                            assert(self.queue_key(v) == c);
                        } else {
                            assert(self.unprocessed_vertex@[v] == spre.unprocessed_vertex@[v]);
                        }
                    } else {
                        assert(*self == spre);
                        if g.edge_of(ids[j as int]).dest == v {
                            assert(spre.in_queue(v));
                            assert(!mm_lt(c, spre.queue_key(v)));
                        }
                    }
                }
                assert forall|v: int|
                    0 <= v < d0.pool_len() && d0.in_queue(v) && #[trigger] self.queue_key(v)
                    != d0.queue_key(v) implies self.predecessor@[v] == Some(cur_vertex) by {
                    if spre.in_queue(dst) && mm_lt(c, spre.queue_key(dst)) {
                        if v == dst {
                            assert(self.predecessor@[v] == Some(cur_vertex));
                        } else {
                            assert(self.unprocessed_vertex@[v] == spre.unprocessed_vertex@[v]);
                            assert(self.predecessor@[v] == spre.predecessor@[v]);
                            assert(self.queue_key(v) == spre.queue_key(v));
                            assert(spre.queue_key(v) != d0.queue_key(v));
                            assert(spre.predecessor@[v] == Some(cur_vertex));
                        }
                    } else {
                        assert(*self == spre);
                    }
                }
                assert forall|v: int|
                    0 <= v < d0.pool_len() && d0.in_queue(v) && #[trigger] self.queue_key(v)
                    == d0.queue_key(v) implies self.predecessor@[v] == d0.predecessor@[v]
                    && self.unprocessed_vertex@[v] == d0.unprocessed_vertex@[v] by {
                    if spre.in_queue(dst) && mm_lt(c, spre.queue_key(dst)) {
                        if v == dst {
                            assert(self.queue_key(v) == c);
                            lemma_relax_keys_le_base(
                                g,
                                d as int,
                                ids,
                                j as int,
                                v,
                                d0.queue_key(v),
                            );
                            crate::bellman::lemma_mm_lt_le_trans(
                                c,
                                spre.queue_key(v),
                                d0.queue_key(v),
                            );
                            assert(false);
                        } else {
                            assert(self.unprocessed_vertex@[v] == spre.unprocessed_vertex@[v]);
                            assert(self.predecessor@[v] == spre.predecessor@[v]);
                            assert(self.queue_key(v) == spre.queue_key(v));
                            assert(spre.queue_key(v) == d0.queue_key(v));
                            assert(spre.predecessor@[v] == d0.predecessor@[v]
                                && spre.unprocessed_vertex@[v] == d0.unprocessed_vertex@[v]);
                        }
                    } else {
                        assert(*self == spre);
                    }
                }
                assert forall|v: int|
                    0 <= v < d0.pool_len() && !d0.in_queue(v)
                    implies #[trigger] self.unprocessed_vertex@[v] == d0.unprocessed_vertex@[v]
                    && self.predecessor@[v] == d0.predecessor@[v] by {
                    if spre.in_queue(dst) && mm_lt(c, spre.queue_key(dst)) {
                        assert(v != dst);
                        assert(self.unprocessed_vertex@[v] == spre.unprocessed_vertex@[v]);
                        assert(self.predecessor@[v] == spre.predecessor@[v]);
                    } else {
                        assert(*self == spre);
                    }
                }
            }
            j = j + 1;
        }
    }
}


/// One decrease-key write preserves the engine invariant: the target keeps
/// a fresh relaxation witness, every other slot is untouched.
#[verifier::rlimit(100)]
#[verifier::spinoff_prover]
proof fn lemma_decrease_inv(
    dpre: Dijkstra,
    dpost: Dijkstra,
    g: DirectedGraph,
    cur_vertex: usize,
    d: i64,
    dst: usize,
    nv: MinMax<i64>,
    eid: usize,
)
    requires
        dpre.inv(g),
        g.wf(),
        cur_vertex < dpre.pool_len(),
        dpre.processed(cur_vertex as int),
        dpre.score(cur_vertex as int) == MinMax::<int>::Value(d as int),
        g.has_edge(eid),
        g.outgoing_ids(cur_vertex).contains(eid),
        g.edge_of(eid).dest == dst,
        dpre.in_queue(dst as int),
        mm_int(nv) == MinMax::<int>::Value(d as int + g.edge_of(eid).weight),
        -(count_some(dpre.processed_vertex@) as int + 1) * MAX_DIJKSTRA_WEIGHT <= nv->Value_0 <= (
        count_some(dpre.processed_vertex@) as int + 1) * MAX_DIJKSTRA_WEIGHT,
        dpost.unprocessed_vertex@ == dpre.unprocessed_vertex@.update(dst as int, Some(nv)),
        dpost.predecessor@ == dpre.predecessor@.update(dst as int, Some(cur_vertex)),
        dpost.processed_vertex == dpre.processed_vertex,
        dpost.starting_vertex == dpre.starting_vertex,
    ensures
        dpost.inv(g),
        forall|v: int| 0 <= v < dpre.pool_len() ==> (dpost.in_queue(v) == dpre.in_queue(v)),
{
    let pc = count_some(dpost.processed_vertex@) as int;
    assert(!dpre.processed(dst as int));
    assert forall|v: int| 0 <= v < dpre.pool_len() implies (dpost.in_queue(v) == dpre.in_queue(
        v,
    )) by {
        if v != dst {
            assert(dpost.unprocessed_vertex@[v] == dpre.unprocessed_vertex@[v]);
        }
    }
    assert forall|v: int|
        0 <= v < dpost.pool_len() implies !(dpost.in_queue(v) && #[trigger] dpost.processed(
        v,
    )) by {
        assert(dpost.processed(v) == dpre.processed(v));
        if v == dst {
            assert(!dpre.processed(v));
        }
    }
    assert(dpost.processed(dpost.starting_vertex as int) ==> dpost.starting_vertex != dst) by {
        if dpost.processed(dpost.starting_vertex as int) {
            assert(!dpre.in_queue(dpost.starting_vertex as int));
        }
    }
    assert forall|v: int|
        0 <= v < dpost.pool_len() && #[trigger] dpost.processed(v)
        implies dpost.processed_vertex@[v]->0.preceeding_vertex == dpost.predecessor@[v] by {
        assert(dpost.processed(v) == dpre.processed(v));
        assert(dpre.processed_vertex@[v]->0.preceeding_vertex == dpre.predecessor@[v]);
        if v != dst {
            assert(dpost.predecessor@[v] == dpre.predecessor@[v]);
        } else {
            assert(!dpre.processed(v));
        }
    }
    assert forall|v: int|
        0 <= v < dpost.pool_len() && #[trigger] dpost.predecessor@[v] is Some
        implies dpost.predecessor@[v]->0 < dpost.pool_len() && dpost.processed(
        dpost.predecessor@[v]->0 as int,
    ) by {
        if v != dst {
            assert(dpost.predecessor@[v] == dpre.predecessor@[v]);
            assert(dpost.processed(dpre.predecessor@[v]->0 as int) == dpre.processed(
                dpre.predecessor@[v]->0 as int,
            ));
        } else {
            assert(dpost.predecessor@[v] == Some(cur_vertex));
            assert(dpost.processed(cur_vertex as int) == dpre.processed(cur_vertex as int));
        }
    }
    assert(relax_witness(dpost, g, dst as int, mm_int(nv))) by {
        reveal(relax_witness);
        assert(dpost.predecessor@[dst as int] == Some(cur_vertex));
        assert(dpost.processed(cur_vertex as int));
        assert(dpost.score(cur_vertex as int) == MinMax::<int>::Value(d as int));
    }
    assert forall|v: int|
        0 <= v < dpost.pool_len() && #[trigger] dpost.in_queue(v) && dpost.queue_key(
        v,
    ) is Value implies relax_witness(dpost, g, v, dpost.queue_key(v)) by {
        if v != dst {
            assert(dpost.unprocessed_vertex@[v] == dpre.unprocessed_vertex@[v]);
            assert(dpost.predecessor@[v] == dpre.predecessor@[v]);
            assert(dpre.in_queue(v) && dpre.queue_key(v) is Value);
            assert(relax_witness(dpre, g, v, dpre.queue_key(v)));
            lemma_witness_stable(dpre, dpost, g, v, dpre.queue_key(v));
            assert(dpost.queue_key(v) == dpre.queue_key(v));
        } else {
            assert(dpost.unprocessed_vertex@[v] == Some(nv));
            assert(dpost.queue_key(v) == mm_int(nv));
        }
    }
    assert forall|v: int|
        0 <= v < dpost.pool_len() && #[trigger] dpost.processed(v) && dpost.score(v) is Value && v
        != dpost.starting_vertex as int implies relax_witness(dpost, g, v, dpost.score(v)) by {
        assert(dpost.processed(v) == dpre.processed(v));
        assert(v != dst);
        assert(dpost.predecessor@[v] == dpre.predecessor@[v]);
        assert(dpost.score(v) == dpre.score(v));
        assert(relax_witness(dpre, g, v, dpre.score(v)));
        lemma_witness_stable(dpre, dpost, g, v, dpre.score(v));
    }
    assert forall|v: int|
        0 <= v < dpost.pool_len() && #[trigger] dpost.processed(v) && dpost.score(v) is Value
        implies -pc * MAX_DIJKSTRA_WEIGHT <= dpost.score(v)->Value_0 <= pc
        * MAX_DIJKSTRA_WEIGHT by {
        assert(dpost.processed(v) == dpre.processed(v));
        assert(dpost.score(v) == dpre.score(v));
    }
    assert forall|v: int|
        0 <= v < dpost.pool_len() && #[trigger] dpost.in_queue(v) && dpost.queue_key(
        v,
    ) is Value implies -(pc + 1) * MAX_DIJKSTRA_WEIGHT <= dpost.queue_key(v)->Value_0 <= (pc + 1)
        * MAX_DIJKSTRA_WEIGHT by {
        if v != dst {
            assert(dpost.unprocessed_vertex@[v] == dpre.unprocessed_vertex@[v]);
            assert(dpre.in_queue(v) && dpre.queue_key(v) is Value);
            assert(dpost.queue_key(v) == dpre.queue_key(v));
        } else {
            assert(dpost.unprocessed_vertex@[v] == Some(nv));
            assert(dpost.queue_key(v) == mm_int(nv));
            assert(dpost.queue_key(v)->Value_0 == nv->Value_0 as int);
        }
    }
    assert forall|v: int|
        0 <= v < dpost.pool_len() && #[trigger] dpost.in_queue(v) implies (dpost.queue_key(
        v,
    ) is Value || dpost.queue_key(v) is Max) by {
        if v != dst {
            assert(dpost.unprocessed_vertex@[v] == dpre.unprocessed_vertex@[v]);
            assert(dpre.in_queue(v));
        } else {
            assert(dpost.queue_key(v) == mm_int(nv));
        }
    }
    assert forall|v: int|
        0 <= v < dpost.pool_len() && #[trigger] dpost.processed(v) implies (dpost.score(
        v,
    ) is Value || dpost.score(v) is Max) by {
        assert(dpost.score(v) == dpre.score(v));
        assert(dpost.processed(v) == dpre.processed(v));
    }
    assert forall|v: int|
        0 <= v < dpost.pool_len() && #[trigger] dpost.predecessor@[v] is Some implies pred_edge(
        dpost,
        g,
        v,
    ) by {
        reveal(pred_edge);
        if v != dst {
            assert(dpost.predecessor@[v] == dpre.predecessor@[v]);
            assert(dpre.predecessor@[v] is Some);
            assert(pred_edge(dpre, g, v));
        } else {
            assert(dpost.predecessor@[v] == Some(cur_vertex));
            assert(g.outgoing_ids(cur_vertex).contains(eid));
            assert(g.edge_of(eid).dest == dst);
        }
    }
}


/// Finalizing the start vertex at distance 0 establishes the invariant on a
/// freshly initialized pool.
#[verifier::rlimit(100)]
#[verifier::spinoff_prover]
proof fn lemma_start_inv(dpre: Dijkstra, dpost: Dijkstra, g: DirectedGraph, start: usize)
    requires
        dpre.is_initialized(),
        dpre.in_queue(start as int),
        start == dpre.starting_vertex,
        dpost.unprocessed_vertex@ == dpre.unprocessed_vertex@.update(start as int, None),
        dpost.processed_vertex@ == dpre.processed_vertex@.update(
            start as int,
            Some(VertexInfo { score: MinMax::Value(0i64), preceeding_vertex: None }),
        ),
        dpost.predecessor@ == dpre.predecessor@.update(start as int, None),
        dpost.starting_vertex == dpre.starting_vertex,
    ensures
        dpost.inv(g),
        dpost.processed(start as int),
        forall|v: int| 0 <= v < dpost.pool_len() ==> (dpost.processed(v) <==> v == start),
        forall|v: int|
            0 <= v < dpost.pool_len() ==> (dpost.in_queue(v) <==> (dpre.in_queue(v) && v
                != start)),
{
    assert forall|i: int|
        0 <= i < dpre.processed_vertex@.len() implies !(#[trigger] dpre.processed_vertex@[i]
        is Some) by {
        assert(!dpre.processed(i));
    }
    lemma_count_some_zero(dpre.processed_vertex@);
    lemma_count_some_update(
        dpre.processed_vertex@,
        start as int,
        Some(VertexInfo { score: MinMax::Value(0i64), preceeding_vertex: None }),
    );
    let pc = count_some(dpost.processed_vertex@) as int;
    assert(pc == 1);
    assert forall|v: int|
        0 <= v < dpost.pool_len() implies (dpost.processed(v) <==> v == start) by {
        if v != start {
            assert(dpost.processed_vertex@[v] == dpre.processed_vertex@[v]);
            assert(!dpre.processed(v));
        }
    }
    assert forall|v: int|
        0 <= v < dpost.pool_len() implies (dpost.in_queue(v) <==> (dpre.in_queue(v) && v
            != start)) by {
        if v != start {
            assert(dpost.unprocessed_vertex@[v] == dpre.unprocessed_vertex@[v]);
        }
    }
    assert forall|v: int|
        0 <= v < dpost.pool_len() && #[trigger] dpost.in_queue(v) && dpost.queue_key(
        v,
    ) is Value implies false by {
        assert(dpre.in_queue(v));
        assert(dpost.unprocessed_vertex@[v] == dpre.unprocessed_vertex@[v]);
        assert(dpre.queue_key(v) == MinMax::<int>::Max);
    }
    assert forall|v: int|
        0 <= v < dpost.pool_len() implies #[trigger] dpost.predecessor@[v] is None by {
        if v != start {
            assert(dpost.predecessor@[v] == dpre.predecessor@[v]);
        }
    }
    assert(dpost.score(start as int) == MinMax::<int>::Value(0));
    assert forall|v: int|
        0 <= v < dpost.pool_len() && #[trigger] dpost.processed(v) implies (dpost.score(
        v,
    ) is Value || dpost.score(v) is Max) by {
        assert(v == start);
    }
    assert forall|v: int|
        0 <= v < dpost.pool_len() && #[trigger] dpost.predecessor@[v] is Some implies pred_edge(
        dpost,
        g,
        v,
    ) by {
        assert(dpost.predecessor@[v] is None);
    }
}

/// Finalizing a popped queue entry preserves the invariant: its queued key
/// becomes its score, and its recorded predecessor is kept.
#[verifier::rlimit(100)]
#[verifier::spinoff_prover]
proof fn lemma_finalize_inv(
    d1: Dijkstra,
    dpost: Dijkstra,
    g: DirectedGraph,
    next: usize,
    key: MinMax<i64>,
)
    requires
        d1.inv(g),
        d1.in_queue(next as int),
        mm_int(key) == d1.queue_key(next as int),
        d1.processed(d1.starting_vertex as int),
        dpost.unprocessed_vertex@ == d1.unprocessed_vertex@.update(next as int, None),
        dpost.processed_vertex@ == d1.processed_vertex@.update(
            next as int,
            Some(VertexInfo { score: key, preceeding_vertex: d1.predecessor@[next as int] }),
        ),
        dpost.predecessor == d1.predecessor,
        dpost.starting_vertex == d1.starting_vertex,
    ensures
        dpost.inv(g),
        count_some(dpost.unprocessed_vertex@) + 1 == count_some(d1.unprocessed_vertex@),
        forall|v: int|
            0 <= v < dpost.pool_len() ==> (dpost.processed(v) <==> (d1.processed(v) || v
                == next)),
        forall|v: int|
            0 <= v < dpost.pool_len() ==> (dpost.in_queue(v) <==> (d1.in_queue(v) && v != next)),
{
    assert(!d1.processed(next as int));
    assert(next != d1.starting_vertex);
    lemma_count_some_update(
        d1.processed_vertex@,
        next as int,
        Some(VertexInfo { score: key, preceeding_vertex: d1.predecessor@[next as int] }),
    );
    lemma_count_some_update(d1.unprocessed_vertex@, next as int, None);
    let pc1 = count_some(d1.processed_vertex@) as int;
    let pc = count_some(dpost.processed_vertex@) as int;
    assert(pc == pc1 + 1);
    assert forall|v: int|
        0 <= v < dpost.pool_len() implies (dpost.processed(v) <==> (d1.processed(v) || v
            == next)) by {
        if v != next {
            assert(dpost.processed_vertex@[v] == d1.processed_vertex@[v]);
        }
    }
    assert forall|v: int|
        0 <= v < dpost.pool_len() implies (dpost.in_queue(v) <==> (d1.in_queue(v) && v
            != next)) by {
        if v != next {
            assert(dpost.unprocessed_vertex@[v] == d1.unprocessed_vertex@[v]);
        }
    }
    assert forall|v: int|
        0 <= v < dpost.pool_len() && #[trigger] dpost.processed(v)
        implies dpost.processed_vertex@[v]->0.preceeding_vertex == dpost.predecessor@[v] by {
        if v != next {
            assert(dpost.processed_vertex@[v] == d1.processed_vertex@[v]);
            assert(d1.processed(v));
        }
    }
    assert forall|v: int|
        0 <= v < dpost.pool_len() && #[trigger] dpost.predecessor@[v] is Some
        implies dpost.predecessor@[v]->0 < dpost.pool_len() && dpost.processed(
        dpost.predecessor@[v]->0 as int,
    ) by {
        assert(d1.predecessor@[v] is Some);
        assert(d1.processed(d1.predecessor@[v]->0 as int));
        assert(dpost.processed(d1.predecessor@[v]->0 as int));
    }
    assert(dpost.score(dpost.starting_vertex as int) == d1.score(d1.starting_vertex as int));
    assert forall|v: int|
        0 <= v < dpost.pool_len() && #[trigger] dpost.processed(v) && dpost.score(v) is Value && v
        != dpost.starting_vertex as int implies relax_witness(dpost, g, v, dpost.score(v)) by {
        if v != next {
            assert(dpost.processed_vertex@[v] == d1.processed_vertex@[v]);
            assert(d1.processed(v) && d1.score(v) is Value);
            assert(relax_witness(d1, g, v, d1.score(v)));
            assert forall|u: int|
                0 <= u < d1.pool_len() && #[trigger] d1.processed(u) implies dpost.processed(u)
                && dpost.score(u) == d1.score(u) by {
                if u != next {
                    assert(dpost.processed_vertex@[u] == d1.processed_vertex@[u]);
                } else {
                    assert(!d1.processed(next as int));
                }
            }
            lemma_witness_stable(d1, dpost, g, v, d1.score(v));
        } else {
            assert(dpost.score(v) == mm_int(key));
            assert(d1.queue_key(v) is Value);
            assert(relax_witness(d1, g, v, d1.queue_key(v)));
            assert forall|u: int|
                0 <= u < d1.pool_len() && #[trigger] d1.processed(u) implies dpost.processed(u)
                && dpost.score(u) == d1.score(u) by {
                if u != next {
                    assert(dpost.processed_vertex@[u] == d1.processed_vertex@[u]);
                } else {
                    assert(!d1.processed(next as int));
                }
            }
            lemma_witness_stable(d1, dpost, g, v, d1.queue_key(v));
        }
    }
    assert forall|v: int|
        0 <= v < dpost.pool_len() && #[trigger] dpost.in_queue(v) && dpost.queue_key(
        v,
    ) is Value implies relax_witness(dpost, g, v, dpost.queue_key(v)) by {
        assert(v != next);
        assert(dpost.unprocessed_vertex@[v] == d1.unprocessed_vertex@[v]);
        assert(d1.in_queue(v) && d1.queue_key(v) is Value);
        assert(relax_witness(d1, g, v, d1.queue_key(v)));
        assert forall|u: int|
            0 <= u < d1.pool_len() && #[trigger] d1.processed(u) implies dpost.processed(u)
            && dpost.score(u) == d1.score(u) by {
            if u != next {
                assert(dpost.processed_vertex@[u] == d1.processed_vertex@[u]);
            } else {
                assert(!d1.processed(next as int));
            }
        }
        lemma_witness_stable(d1, dpost, g, v, d1.queue_key(v));
    }
    assert((pc1 + 1) * MAX_DIJKSTRA_WEIGHT == pc1 * MAX_DIJKSTRA_WEIGHT + MAX_DIJKSTRA_WEIGHT);
    assert((pc + 1) * MAX_DIJKSTRA_WEIGHT == pc * MAX_DIJKSTRA_WEIGHT + MAX_DIJKSTRA_WEIGHT);
    assert forall|v: int|
        0 <= v < dpost.pool_len() && #[trigger] dpost.processed(v) && dpost.score(v) is Value
        implies -pc * MAX_DIJKSTRA_WEIGHT <= dpost.score(v)->Value_0 <= pc
        * MAX_DIJKSTRA_WEIGHT by {
        if v != next {
            assert(dpost.processed_vertex@[v] == d1.processed_vertex@[v]);
            assert(d1.processed(v) && d1.score(v) is Value);
        } else {
            assert(dpost.score(v) == mm_int(key));
            assert(d1.queue_key(v) is Value);
        }
    }
    assert forall|v: int|
        0 <= v < dpost.pool_len() && #[trigger] dpost.in_queue(v) && dpost.queue_key(
        v,
    ) is Value implies -(pc + 1) * MAX_DIJKSTRA_WEIGHT <= dpost.queue_key(v)->Value_0 <= (pc + 1)
        * MAX_DIJKSTRA_WEIGHT by {
        assert(v != next);
        assert(dpost.unprocessed_vertex@[v] == d1.unprocessed_vertex@[v]);
        assert(d1.in_queue(v) && d1.queue_key(v) is Value);
    }
    assert forall|v: int|
        0 <= v < dpost.pool_len() && #[trigger] dpost.processed(v) implies (dpost.score(
        v,
    ) is Value || dpost.score(v) is Max) by {
        if v != next {
            assert(dpost.processed_vertex@[v] == d1.processed_vertex@[v]);
            assert(d1.processed(v));
        } else {
            assert(dpost.score(v) == mm_int(key));
            assert(d1.queue_key(v) is Value || d1.queue_key(v) is Max);
        }
    }
    assert forall|v: int|
        0 <= v < dpost.pool_len() && #[trigger] dpost.in_queue(v) implies (dpost.queue_key(
        v,
    ) is Value || dpost.queue_key(v) is Max) by {
        assert(v != next);
        assert(dpost.unprocessed_vertex@[v] == d1.unprocessed_vertex@[v]);
        assert(d1.in_queue(v));
    }
    assert forall|v: int|
        0 <= v < dpost.pool_len() && #[trigger] dpost.predecessor@[v] is Some implies pred_edge(
        dpost,
        g,
        v,
    ) by {
        reveal(pred_edge);
        assert(d1.predecessor@[v] is Some);
        assert(pred_edge(d1, g, v));
        assert(dpost.predecessor@[v] == d1.predecessor@[v]);
    }
}


impl Dijkstra {
    /// Label-setting from the starting vertex: the start is finalized at
    /// distance 0, then the smallest queued key is repeatedly extracted,
    /// finalized, and its outgoing edges relaxed, until the pool is empty.
    /// A starting vertex that was never initialized leaves the engine
    /// untouched.
    #[verifier::rlimit(100)]
    pub fn calculate_shortest_paths(&mut self, graph: &DirectedGraph, starting_vertex: usize)
        requires
            old(self).is_initialized(),
            starting_vertex == old(self).starting_vertex,
            graph.wf(),
            weights_bounded(*graph, MAX_DIJKSTRA_WEIGHT),
            forall|v: int|
                0 <= v < old(self).pool_len() && #[trigger] old(self).in_queue(v)
                    ==> graph.has_vertex(v as usize),
        ensures
            final(self).inv(*graph),
            final(self).pool_len() == old(self).pool_len(),
            final(self).starting_vertex == old(self).starting_vertex,
            old(self).in_queue(starting_vertex as int) ==> (forall|v: int|
                0 <= v < final(self).pool_len() ==> !#[trigger] final(self).in_queue(v)) && (
            forall|v: int|
                0 <= v < final(self).pool_len() ==> (#[trigger] final(self).processed(v) <==> old(self).in_queue(v))),
            !old(self).in_queue(starting_vertex as int) ==> *final(self) == *old(self),
            nonneg_weights(*graph) ==> dominance(*final(self)) && settled(*final(self), *graph),
            pred_ranked(*final(self)),
    {
        let ghost g = *graph;
        let ghost d_init = *old(self);
        let n = self.unprocessed_vertex.len();
        if starting_vertex < n {
            let start_entry = self.unprocessed_vertex[starting_vertex];
            match start_entry {
                Option::Some(_) => {
                    let ghost dpre = *self;
                    self.unprocessed_vertex.set(starting_vertex, None);
                    self.processed_vertex.set(
                        starting_vertex,
                        Some(VertexInfo { score: MinMax::Value(0), preceeding_vertex: None }),
                    );
                    self.predecessor.set(starting_vertex, None);
                    proof {
                        self.finalized@ = Seq::empty().push(starting_vertex);
                        lemma_start_inv(dpre, *self, g, starting_vertex);
                        lemma_rank_start(dpre, *self, starting_vertex);
                        assert(d_init.in_queue(starting_vertex as int));
                        assert(graph.has_vertex(starting_vertex));
                    }
                    let ghost dstart = *self;
                    self.update_scoring(graph, starting_vertex);
                    proof {
                        assert forall|v: int|
                            0 <= v < dstart.pool_len() implies (#[trigger] self.predecessor@[v]
                            == dstart.predecessor@[v] || (dstart.in_queue(v)
                            && self.predecessor@[v] == Some(starting_vertex))) by {
                            if dstart.score(starting_vertex as int) is Value {
                                if dstart.in_queue(v) {
                                    if self.queue_key(v) == dstart.queue_key(v) {
                                    } else {
                                    }
                                } else {
                                }
                            } else {
                                assert(*self == dstart);
                            }
                        }
                        lemma_rank_relax(dstart, *self, starting_vertex);
                        if nonneg_weights(g) {
                            lemma_initialized_inv(dpre, g);
                            assert forall|u: int|
                                0 <= u < dpre.pool_len() && #[trigger] dpre.in_queue(u)
                                implies crate::bellman::mm_le(
                                mm_int(MinMax::Value(0i64)),
                                dpre.queue_key(u),
                            ) by {
                                assert(dpre.queue_key(u) == MinMax::<int>::Max);
                            }
                            assert forall|u: int|
                                0 <= u < dpre.pool_len() implies !#[trigger] dpre.processed(
                                u,
                            ) by {}
                            assert(dstart.predecessor@ =~= dpre.predecessor@);
                            lemma_step_settled(
                                dpre,
                                dstart,
                                *self,
                                g,
                                starting_vertex,
                                MinMax::Value(0i64),
                            );
                        }
                        assert forall|v: int|
                            0 <= v < self.pool_len() implies (#[trigger] self.processed(v) <==> (
                        d_init.in_queue(v) && !self.in_queue(v))) by {
                            assert(self.processed(v) == dstart.processed(v));
                            assert(self.in_queue(v) == dstart.in_queue(v));
                            assert(dstart.processed(v) <==> v == starting_vertex);
                            assert(dstart.in_queue(v) <==> (dpre.in_queue(v) && v
                                != starting_vertex));
                        }
                        assert forall|v: int|
                            0 <= v < self.pool_len() && #[trigger] self.in_queue(v)
                            implies d_init.in_queue(v) && g.has_vertex(v as usize) by {
                            assert(self.in_queue(v) == dstart.in_queue(v));
                            assert(dstart.in_queue(v) <==> (dpre.in_queue(v) && v
                                != starting_vertex));
                        }
                    }
                    loop
                        invariant_except_break
                            self.inv(g),
                            g == *graph,
                            graph.wf(),
                            weights_bounded(g, MAX_DIJKSTRA_WEIGHT),
                            self.pool_len() == d_init.pool_len(),
                            self.starting_vertex == d_init.starting_vertex,
                            starting_vertex == d_init.starting_vertex,
                            self.processed(starting_vertex as int),
                            forall|v: int|
                                0 <= v < self.pool_len() ==> (#[trigger] self.in_queue(v)
                                    ==> d_init.in_queue(v)),
                            forall|v: int|
                                0 <= v < self.pool_len() ==> (#[trigger] self.processed(v) <==> (
                                d_init.in_queue(v) && !self.in_queue(v))),
                            forall|v: int|
                                0 <= v < self.pool_len() && #[trigger] self.in_queue(v)
                                    ==> g.has_vertex(v as usize),
                            nonneg_weights(g) ==> dominance(*self) && settled(*self, g),
                            pred_ranked(*self),
                        ensures
                            self.inv(g),
                            self.pool_len() == d_init.pool_len(),
                            self.starting_vertex == d_init.starting_vertex,
                            forall|v: int|
                                0 <= v < self.pool_len() ==> !#[trigger] self.in_queue(v),
                            forall|v: int|
                                0 <= v < self.pool_len() ==> (#[trigger] self.processed(v) <==> (
                                d_init.in_queue(v) && !self.in_queue(v))),
                            nonneg_weights(g) ==> dominance(*self) && settled(*self, g),
                            pred_ranked(*self),
                        decreases count_some(self.unprocessed_vertex@),
                    {
                        let ghost d1 = *self;
                        let popped = self.extract_min();
                        match popped {
                            Option::Some((next_vertex, key)) => {
                                let pred_of_next = self.predecessor[next_vertex];
                                proof {
                                    assert(pred_of_next == d1.predecessor@[next_vertex as int]);
                                }
                                self.processed_vertex.set(
                                    next_vertex,
                                    Some(
                                        VertexInfo {
                                            score: key,
                                            preceeding_vertex: pred_of_next,
                                        },
                                    ),
                                );
                                proof {
                                    self.finalized@ = self.finalized@.push(next_vertex);
                                    lemma_finalize_inv(d1, *self, g, next_vertex, key);
                                    lemma_rank_finalize(d1, *self, next_vertex, key);
                                    assert(d1.in_queue(next_vertex as int));
                                    assert(g.has_vertex(next_vertex));
                                    assert(self.processed(next_vertex as int));
                                }
                                let ghost d2 = *self;
                                self.update_scoring(graph, next_vertex);
                                proof {
                                    assert forall|v: int|
                                        0 <= v < self.unprocessed_vertex@.len() implies (
                                    self.unprocessed_vertex@[v] is Some
                                        <==> #[trigger] d2.unprocessed_vertex@[v] is Some) by {
                                        assert(self.in_queue(v) == d2.in_queue(v));
                                    }
                                    lemma_count_some_congruent(
                                        self.unprocessed_vertex@,
                                        d2.unprocessed_vertex@,
                                    );
                                    assert forall|v: int|
                                        0 <= v < self.pool_len() implies (
                                    #[trigger] self.processed(v) <==> (d_init.in_queue(v)
                                        && !self.in_queue(v))) by {
                                        assert(self.processed(v) == d2.processed(v));
                                        assert(self.in_queue(v) == d2.in_queue(v));
                                        assert(d2.processed(v) <==> (d1.processed(v) || v
                                            == next_vertex));
                                        assert(d2.in_queue(v) <==> (d1.in_queue(v) && v
                                            != next_vertex));
                                        assert(d1.processed(v) <==> (d_init.in_queue(v)
                                            && !d1.in_queue(v)));
                                    }
                                    assert forall|v: int|
                                        0 <= v < self.pool_len() && #[trigger] self.in_queue(v)
                                        implies d_init.in_queue(v) && g.has_vertex(
                                        v as usize,
                                    ) by {
                                        assert(self.in_queue(v) == d2.in_queue(v));
                                        assert(d2.in_queue(v) <==> (d1.in_queue(v) && v
                                            != next_vertex));
                                    }
                                    assert forall|v: int|
                                        0 <= v < d2.pool_len() implies (
                                    #[trigger] self.predecessor@[v] == d2.predecessor@[v] || (
                                    d2.in_queue(v) && self.predecessor@[v] == Some(
                                        next_vertex,
                                    ))) by {
                                        if d2.score(next_vertex as int) is Value {
                                            if d2.in_queue(v) {
                                            } else {
                                            }
                                        } else {
                                            assert(*self == d2);
                                        }
                                    }
                                    lemma_rank_relax(d2, *self, next_vertex);
                                    if nonneg_weights(g) {
                                        assert forall|u: int|
                                            0 <= u < d1.pool_len() && #[trigger] d1.in_queue(u)
                                            implies crate::bellman::mm_le(
                                            mm_int(key),
                                            d1.queue_key(u),
                                        ) by {}
                                        lemma_step_settled(d1, d2, *self, g, next_vertex, key);
                                    }
                                }
                            },
                            Option::None => {
                                break ;
                            },
                        }
                    }
                },
                Option::None => {
                    proof {
                        lemma_initialized_ranked(*self);
                    }
                },
            }
        } else {
            proof {
                lemma_initialized_ranked(*self);
            }
        }
    }
}


/// A reconstructed predecessor path over optional links: non-empty, ends at
/// `dest`, every link recorded, and it starts at the start vertex unless
/// the chain ran out or the cycle guard tripped.
pub open spec fn opt_chain_ok(
    preds: Seq<Option<usize>>,
    start: usize,
    dest: usize,
    cap: nat,
    path: Seq<usize>,
) -> bool {
    &&& 1 <= path.len() <= cap + 2
    &&& path[path.len() - 1] == dest
    &&& forall|i: int|
        0 < i < path.len() ==> #[trigger] path[i] < preds.len() && preds[path[i] as int] == Some(
            path[i - 1],
        )
    &&& (path[0] == start || (path[0] < preds.len() && preds[path[0] as int] is None)
        || path.len() == cap + 2)
}

/// The machine value holds a finite distance.
pub open spec fn mm_int_is_value(m: MinMax<i64>) -> bool {
    mm_int(m) is Value
}

/// A vertex's finalized distance, with Johnson's additive reweighting
/// undone against the potential table.
pub open spec fn adjusted_distance(d: Dijkstra, adjustments: Seq<MinMax<i64>>, v: int) -> MinMax<
    int,
> {
    crate::minmax::mm_plus(
        crate::minmax::mm_minus(d.score(v), mm_int(adjustments[d.starting_vertex as int])),
        mm_int(adjustments[v]),
    )
}

impl Dijkstra {
    /// The finalized scoring state of a processed vertex.
    pub fn get_processed(&self, index: &usize) -> (r: &VertexInfo)
        requires
            self.wf(),
            self.processed(*index as int),
        ensures
            *r == self.processed_vertex@[*index as int]->0,
    {
        match &self.processed_vertex[*index] {
            Option::Some(i) => i,
            Option::None => vstd::pervasive::unreached(),
        }
    }

    /// Returns the shortest distance from the starting vertex to
    /// `dest_vertex`; `NA` if that vertex was never finalized.
    pub fn get_shortest_path_distance(&self, dest_vertex: usize) -> (r: MinMax<i64>)
        requires
            self.wf(),
        ensures
            self.processed(dest_vertex as int) ==> mm_int(r) == self.score(dest_vertex as int),
            !self.processed(dest_vertex as int) ==> r == MinMax::<i64>::NA,
    {
        if dest_vertex < self.processed_vertex.len() {
            match &self.processed_vertex[dest_vertex] {
                Option::Some(i) => i.score,
                Option::None => MinMax::NA,
            }
        } else {
            MinMax::NA
        }
    }

    /// The finalized distances, keyed by vertex id ascending: exactly one
    /// entry per finalized vertex.
    pub fn get_shortest_path_distances(&self) -> (r: Vec<(usize, MinMax<i64>)>)
        requires
            self.wf(),
        ensures
            forall|j: int, k: int| 0 <= j < k < r@.len() ==> r@[j].0 < r@[k].0,
            forall|j: int|
                0 <= j < r@.len() ==> self.processed((#[trigger] r@[j]).0 as int) && mm_int(
                    r@[j].1,
                ) == self.score(r@[j].0 as int),
            forall|v: int|
                0 <= v < self.pool_len() && #[trigger] self.processed(v) ==> exists|j: int|
                    0 <= j < r@.len() && #[trigger] r@[j].0 == v,
    {
        let mut r: Vec<(usize, MinMax<i64>)> = Vec::new();
        let mut v: usize = 0;
        while v < self.processed_vertex.len()
            invariant
                self.wf(),
                v <= self.pool_len(),
                forall|j: int, k: int| 0 <= j < k < r@.len() ==> r@[j].0 < r@[k].0,
                forall|j: int| 0 <= j < r@.len() ==> (#[trigger] r@[j]).0 < v,
                forall|j: int|
                    0 <= j < r@.len() ==> self.processed((#[trigger] r@[j]).0 as int) && mm_int(
                        r@[j].1,
                    ) == self.score(r@[j].0 as int),
                forall|u: int|
                    0 <= u < v && #[trigger] self.processed(u) ==> exists|j: int|
                        0 <= j < r@.len() && #[trigger] r@[j].0 == u,
            decreases self.processed_vertex@.len() - v,
        {
            let ghost r0 = r@;
            match &self.processed_vertex[v] {
                Option::Some(i) => {
                    r.push((v, i.score));
                },
                Option::None => {},
            }
            proof {
                assert forall|u: int|
                    0 <= u < v + 1 && #[trigger] self.processed(u) implies exists|j: int|
                    0 <= j < r@.len() && #[trigger] r@[j].0 == u by {
                    if u == v && self.processed(v as int) {
                        assert(r@[r@.len() - 1].0 == u);
                    } else {
                        let j = choose|j: int| 0 <= j < r0.len() && #[trigger] r0[j].0 == u;
                        assert(r@[j].0 == u);
                    }
                }
            }
            v = v + 1;
        }
        r
    }

    /// Walks the predecessor links backward from `dest_vertex`, bounded by
    /// the pool size as a cycle guard, and returns the path in
    /// source-to-dest order.
    fn find_path(&self, dest_vertex: usize) -> (r: Vec<usize>)
        requires
            self.wf(),
            forall|v: int|
                0 <= v < self.predecessor@.len() && #[trigger] self.predecessor@[v] is Some
                    ==> self.predecessor@[v]->0 < self.pool_len(),
            dest_vertex < self.pool_len(),
        ensures
            opt_chain_ok(
                self.predecessor@,
                self.starting_vertex,
                dest_vertex,
                self.pool_len(),
                r@,
            ),
            pred_ranked(*self) ==> r@.len() <= self.pool_len() + 1 && (r@[0]
                == self.starting_vertex || (r@[0] < self.predecessor@.len()
                && self.predecessor@[r@[0] as int] is None)),
    {
        let ghost preds = self.predecessor@;
        let cap = self.unprocessed_vertex.len();
        let mut vertex_list: Vec<usize> = Vec::new();
        vertex_list.push(dest_vertex);
        let walk = match self.predecessor[dest_vertex] {
            Option::Some(_) => true,
            Option::None => dest_vertex == self.starting_vertex,
        };
        if walk {
            let mut current_vertex = dest_vertex;
            let mut predecessor_count: usize = 0;
            loop
                invariant_except_break
                    self.wf(),
                    cap == self.pool_len(),
                    forall|v: int|
                        0 <= v < self.predecessor@.len() && #[trigger] self.predecessor@[v] is Some
                            ==> self.predecessor@[v]->0 < self.pool_len(),
                    preds == self.predecessor@,
                    predecessor_count <= cap,
                    vertex_list@.len() == predecessor_count + 1,
                    vertex_list@[0] == dest_vertex,
                    current_vertex == vertex_list@[vertex_list@.len() - 1],
                    current_vertex < cap,
                    forall|i: int|
                        0 <= i < vertex_list@.len() - 1 ==> #[trigger] vertex_list@[i]
                            < preds.len() && preds[vertex_list@[i] as int] == Some(
                            vertex_list@[i + 1],
                        ),
                    pred_ranked(*self) ==> predecessor_count <= self.finalized@.len(),
                    pred_ranked(*self) && predecessor_count >= 1 ==> (current_vertex as int)
                        < self.pool_len() && self.processed(current_vertex as int) && 0
                        <= fin_rank(*self, current_vertex) && fin_rank(*self, current_vertex)
                        <= self.finalized@.len() - predecessor_count,
                ensures
                    vertex_list@.len() >= 1,
                    vertex_list@.len() <= cap + 2,
                    vertex_list@[0] == dest_vertex,
                    forall|i: int|
                        0 <= i < vertex_list@.len() - 1 ==> #[trigger] vertex_list@[i]
                            < preds.len() && preds[vertex_list@[i] as int] == Some(
                            vertex_list@[i + 1],
                        ),
                    vertex_list@[vertex_list@.len() - 1] == self.starting_vertex || (
                    vertex_list@[vertex_list@.len() - 1] < preds.len() && preds[vertex_list@[
                        vertex_list@.len() - 1] as int] is None) || vertex_list@.len() == cap + 2,
                    pred_ranked(*self) ==> vertex_list@.len() <= cap + 1 && (vertex_list@[
                        vertex_list@.len() - 1] == self.starting_vertex || (vertex_list@[
                        vertex_list@.len() - 1] < preds.len() && preds[vertex_list@[
                        vertex_list@.len() - 1] as int] is None)),
                decreases cap + 1 - predecessor_count,
            {
                let ghost old_current = current_vertex;
                let ghost old_count = predecessor_count;
                match self.predecessor[current_vertex] {
                    Option::Some(preceeding_vertex) => {
                        predecessor_count = predecessor_count + 1;
                        vertex_list.push(preceeding_vertex);
                        current_vertex = preceeding_vertex;
                        proof {
                            if pred_ranked(*self) {
                                assert(self.processed(preceeding_vertex as int));
                                assert(self.finalized@.contains(preceeding_vertex));
                                let pidx = choose|pi: int|
                                    0 <= pi < self.finalized@.len() && self.finalized@[pi]
                                        == preceeding_vertex;
                                lemma_fin_rank(*self, preceeding_vertex, pidx);
                                if old_count >= 1 {
                                    let r0 = fin_rank(*self, old_current);
                                    assert(0 <= r0 < self.finalized@.len());
                                    assert(self.finalized@[r0] == old_current);
                                    assert(self.predecessor@[self.finalized@[r0] as int]
                                        is Some);
                                    let j = choose|j: int|
                                        0 <= j < r0 && self.finalized@[j] == self.predecessor@[
                                        self.finalized@[r0] as int]->0;
                                    lemma_fin_rank(*self, preceeding_vertex, j);
                                }
                            }
                        }
                        if predecessor_count > cap || current_vertex == self.starting_vertex {
                            proof {
                                if pred_ranked(*self) && predecessor_count > cap {
                                    lemma_count_some_le_len(self.processed_vertex@);
                                    assert(self.finalized@.len() <= cap);
                                    assert(false);
                                }
                            }
                            break ;
                        }
                    },
                    Option::None => {
                        break ;
                    },
                }
            }
        }
        let mut path: Vec<usize> = Vec::new();
        let mut i: usize = vertex_list.len();
        while i > 0
            invariant
                i <= vertex_list@.len(),
                path@.len() == vertex_list@.len() - i,
                forall|j: int|
                    0 <= j < path@.len() ==> #[trigger] path@[j] == vertex_list@[vertex_list@.len()
                        - 1 - j],
            decreases i,
        {
            i = i - 1;
            path.push(vertex_list[i]);
        }
        proof {
            let p = path@;
            let l = vertex_list@;
            assert(p[p.len() - 1] == l[0]);
            assert forall|k: int|
                0 < k < p.len() implies #[trigger] p[k] < preds.len() && preds[p[k] as int]
                == Some(p[k - 1]) by {
                assert(p[k] == l[l.len() - 1 - k]);
                assert(p[k - 1] == l[l.len() - k]);
                assert(l[l.len() - 1 - k] < preds.len() && preds[l[l.len() - 1 - k] as int]
                    == Some(l[l.len() - 1 - k + 1]));
            }
            if pred_ranked(*self) {
                assert(p[0] == l[l.len() - 1]);
            }
        }
        path
    }

    /// One result record per finalized vertex, ascending by destination:
    /// distance, reconstructed path, and path length.
    pub fn get_shortest_paths(&self) -> (r: Vec<crate::shortpathinfo::ShortestPathInfo>)
        requires
            self.wf(),
            forall|v: int|
                0 <= v < self.predecessor@.len() && #[trigger] self.predecessor@[v] is Some
                    ==> self.predecessor@[v]->0 < self.pool_len(),
        ensures
            forall|j: int, k: int| 0 <= j < k < r@.len() ==> r@[j].dest < r@[k].dest,
            forall|j: int|
                0 <= j < r@.len() ==> {
                    let info = #[trigger] r@[j];
                    &&& self.processed(info.dest as int)
                    &&& info.source == self.starting_vertex
                    &&& mm_int(info.distance) == self.score(info.dest as int)
                    &&& opt_chain_ok(
                        self.predecessor@,
                        self.starting_vertex,
                        info.dest,
                        self.pool_len(),
                        info.path@,
                    )
                    &&& info.path_len == info.path@.len()
                    &&& !info.has_negative_cycle
                },
            forall|v: int|
                0 <= v < self.pool_len() && #[trigger] self.processed(v) ==> exists|j: int|
                    0 <= j < r@.len() && (#[trigger] r@[j]).dest == v,
            pred_ranked(*self) ==> forall|j: int|
                0 <= j < r@.len() ==> (#[trigger] r@[j]).path@.len() <= self.pool_len() + 1 && (
                r@[j].path@[0] == self.starting_vertex || (r@[j].path@[0]
                    < self.predecessor@.len() && self.predecessor@[r@[j].path@[0] as int]
                    is None)),
    {
        let mut r: Vec<crate::shortpathinfo::ShortestPathInfo> = Vec::new();
        let mut v: usize = 0;
        while v < self.processed_vertex.len()
            invariant
                self.wf(),
                forall|u: int|
                    0 <= u < self.predecessor@.len() && #[trigger] self.predecessor@[u] is Some
                        ==> self.predecessor@[u]->0 < self.pool_len(),
                v <= self.pool_len(),
                forall|j: int, k: int| 0 <= j < k < r@.len() ==> r@[j].dest < r@[k].dest,
                forall|j: int| 0 <= j < r@.len() ==> (#[trigger] r@[j]).dest < v,
                forall|j: int|
                    0 <= j < r@.len() ==> {
                        let info = #[trigger] r@[j];
                        &&& self.processed(info.dest as int)
                        &&& info.source == self.starting_vertex
                        &&& mm_int(info.distance) == self.score(info.dest as int)
                        &&& opt_chain_ok(
                            self.predecessor@,
                            self.starting_vertex,
                            info.dest,
                            self.pool_len(),
                            info.path@,
                        )
                        &&& info.path_len == info.path@.len()
                        &&& !info.has_negative_cycle
                    },
                forall|u: int|
                    0 <= u < v && #[trigger] self.processed(u) ==> exists|j: int|
                        0 <= j < r@.len() && (#[trigger] r@[j]).dest == u,
                pred_ranked(*self) ==> forall|j: int|
                    0 <= j < r@.len() ==> (#[trigger] r@[j]).path@.len() <= self.pool_len() + 1
                        && (r@[j].path@[0] == self.starting_vertex || (r@[j].path@[0]
                        < self.predecessor@.len() && self.predecessor@[r@[j].path@[0] as int]
                        is None)),
            decreases self.processed_vertex@.len() - v,
        {
            let ghost r0 = r@;
            let entry = self.processed_vertex[v];
            match entry {
                Option::Some(info) => {
                    let path = self.find_path(v);
                    let path_len = path.len();
                    r.push(
                        crate::shortpathinfo::ShortestPathInfo {
                            source: self.starting_vertex,
                            dest: v,
                            distance: info.score,
                            path,
                            path_len,
                            has_negative_cycle: false,
                        },
                    );
                },
                Option::None => {},
            }
            proof {
                assert forall|u: int|
                    0 <= u < v + 1 && #[trigger] self.processed(u) implies exists|j: int|
                    0 <= j < r@.len() && (#[trigger] r@[j]).dest == u by {
                    if u == v && self.processed(v as int) {
                        assert(r@[r@.len() - 1].dest == u);
                    } else {
                        let j = choose|j: int| 0 <= j < r0.len() && (#[trigger] r0[j]).dest == u;
                        assert(r@[j].dest == u);
                    }
                }
            }
            v = v + 1;
        }
        r
    }
}


impl Dijkstra {
    /// Scans the finalized vertices, undoes Johnson's additive reweighting
    /// in place, and keeps the single result strictly below the running
    /// bound; `None` when no finalized vertex beats `max_distance`.
    #[verifier::rlimit(100)]
    pub fn get_shortest_shortest_path(
        &self,
        max_distance: MinMax<i64>,
        adjustments: &Vec<MinMax<i64>>,
    ) -> (r: Option<crate::shortpathinfo::ShortestPathInfo>)
        requires
            self.wf(),
            forall|v: int|
                0 <= v < self.predecessor@.len() && #[trigger] self.predecessor@[v] is Some
                    ==> self.predecessor@[v]->0 < self.pool_len(),
            adjustments@.len() >= self.pool_len(),
            self.starting_vertex < adjustments@.len(),
            forall|j: int|
                0 <= j < adjustments@.len() ==> #[trigger] adjustments@[j] is Value
                    && -100000 * 100000000 <= adjustments@[j]->Value_0 <= 100000 * 100000000,
            forall|v: int|
                0 <= v < self.pool_len() && #[trigger] self.processed(v) && self.score(v) is Value
                    ==> -100000 * MAX_DIJKSTRA_WEIGHT <= self.score(v)->Value_0 <= 100000
                    * MAX_DIJKSTRA_WEIGHT,
            forall|v: int|
                0 <= v < self.pool_len() && #[trigger] self.processed(v) ==> (self.score(
                    v,
                ) is Value || self.score(v) is Max),
        ensures
            r is None ==> forall|v: int|
                0 <= v < self.pool_len() && #[trigger] self.processed(v) && v
                    != self.starting_vertex as int ==> !mm_lt(
                    adjusted_distance(*self, adjustments@, v),
                    mm_int(max_distance),
                ),
            r matches Some(info) ==> {
                &&& self.processed(info.dest as int)
                &&& info.dest != self.starting_vertex
                &&& info.source == self.starting_vertex
                &&& mm_int(info.distance) == adjusted_distance(*self, adjustments@, info.dest as int)
                &&& mm_lt(mm_int(info.distance), mm_int(max_distance))
                &&& opt_chain_ok(
                    self.predecessor@,
                    self.starting_vertex,
                    info.dest,
                    self.pool_len(),
                    info.path@,
                )
                &&& info.path_len == info.path@.len()
                &&& !info.has_negative_cycle
                &&& forall|v: int|
                    0 <= v < self.pool_len() && #[trigger] self.processed(v) && v
                        != self.starting_vertex as int ==> !mm_lt(
                        adjusted_distance(*self, adjustments@, v),
                        mm_int(info.distance),
                    )
                &&& (pred_ranked(*self) ==> info.path@.len() <= self.pool_len() + 1 && (
                info.path@[0] == self.starting_vertex || (info.path@[0]
                    < self.predecessor@.len() && self.predecessor@[info.path@[0] as int]
                    is None)))
            },
    {
        let mut min_distance = max_distance;
        let mut result: Option<crate::shortpathinfo::ShortestPathInfo> = None;
        let start_adj = adjustments[self.starting_vertex];
        let mut v: usize = 0;
        while v < self.processed_vertex.len()
            invariant
                self.wf(),
                forall|u: int|
                    0 <= u < self.predecessor@.len() && #[trigger] self.predecessor@[u] is Some
                        ==> self.predecessor@[u]->0 < self.pool_len(),
                adjustments@.len() >= self.pool_len(),
                self.starting_vertex < adjustments@.len(),
                start_adj == adjustments@[self.starting_vertex as int],
                forall|j: int|
                    0 <= j < adjustments@.len() ==> #[trigger] adjustments@[j] is Value
                        && -100000 * 100000000 <= adjustments@[j]->Value_0 <= 100000 * 100000000,
                forall|u: int|
                    0 <= u < self.pool_len() && #[trigger] self.processed(u) && self.score(
                        u,
                    ) is Value ==> -100000 * MAX_DIJKSTRA_WEIGHT <= self.score(u)->Value_0
                        <= 100000 * MAX_DIJKSTRA_WEIGHT,
                forall|u: int|
                    0 <= u < self.pool_len() && #[trigger] self.processed(u) ==> (self.score(
                        u,
                    ) is Value || self.score(u) is Max),
                v <= self.pool_len(),
                match result {
                    Option::None => {
                        &&& mm_int(min_distance) == mm_int(max_distance)
                        &&& forall|u: int|
                            0 <= u < v && #[trigger] self.processed(u) && u
                                != self.starting_vertex as int ==> !mm_lt(
                                adjusted_distance(*self, adjustments@, u),
                                mm_int(max_distance),
                            )
                    },
                    Option::Some(info) => {
                        &&& self.processed(info.dest as int)
                        &&& (info.dest as int) < v
                        &&& info.dest != self.starting_vertex
                        &&& info.source == self.starting_vertex
                        &&& mm_int(info.distance) == adjusted_distance(
                            *self,
                            adjustments@,
                            info.dest as int,
                        )
                        &&& mm_int(min_distance) == mm_int(info.distance)
                        &&& mm_lt(mm_int(info.distance), mm_int(max_distance))
                        &&& opt_chain_ok(
                            self.predecessor@,
                            self.starting_vertex,
                            info.dest,
                            self.pool_len(),
                            info.path@,
                        )
                        &&& info.path_len == info.path@.len()
                        &&& !info.has_negative_cycle
                        &&& forall|u: int|
                            0 <= u < v && #[trigger] self.processed(u) && u
                                != self.starting_vertex as int ==> !mm_lt(
                                adjusted_distance(*self, adjustments@, u),
                                mm_int(info.distance),
                            )
                        &&& (pred_ranked(*self) ==> info.path@.len() <= self.pool_len() + 1 && (
                        info.path@[0] == self.starting_vertex || (info.path@[0]
                            < self.predecessor@.len() && self.predecessor@[info.path@[0] as int]
                            is None)))
                    },
                },
            decreases self.processed_vertex@.len() - v,
        {
            let entry = self.processed_vertex[v];
            match entry {
                Option::Some(info) => {
                    let vertex_adj = adjustments[v];
                    proof {
                        assert(self.processed(v as int));
                        assert(self.score(v as int) == mm_int(info.score));
                        assert(adjustments@[self.starting_vertex as int] is Value);
                        assert(adjustments@[v as int] is Value);
                        assert(self.score(v as int) is Value || self.score(v as int) is Max);
                    }
                    let adjusted = info.score.minus(start_adj).plus(vertex_adj);
                    proof {
                        assert(mm_int(adjusted) == adjusted_distance(*self, adjustments@, v as int));
                        crate::bellman::lemma_mm_int_injective(adjusted, min_distance);
                    }
                    if self.starting_vertex != v && adjusted.lt(&min_distance) {
                        let path = self.find_path(v);
                        let path_len = path.len();
                        let new_entry = crate::shortpathinfo::ShortestPathInfo {
                            source: self.starting_vertex,
                            dest: v,
                            distance: adjusted,
                            path,
                            path_len,
                            has_negative_cycle: false,
                        };
                        min_distance = adjusted;
                        result = Some(new_entry);
                    }
                },
                Option::None => {},
            }
            v = v + 1;
        }
        result
    }
}


/// Every reconstructed path's edges exist in the graph: each consecutive
/// pair of a predecessor-chain path is connected by a recorded edge.
pub proof fn lemma_path_edges_exist(d: Dijkstra, g: DirectedGraph, dest: usize, path: Seq<usize>)
    requires
        d.inv(g),
        opt_chain_ok(d.predecessor@, d.starting_vertex, dest, d.pool_len(), path),
    ensures
        forall|i: int|
            0 < i < path.len() ==> exists|eid: usize|
                g.outgoing_ids(#[trigger] path[i - 1]).contains(eid) && g.edge_of(eid).dest
                    == path[i],
{
    assert forall|i: int| 0 < i < path.len() implies exists|eid: usize|
        g.outgoing_ids(#[trigger] path[i - 1]).contains(eid) && g.edge_of(eid).dest == path[i] by {
        assert(path[i] < d.predecessor@.len());
        assert(d.predecessor@[path[i] as int] == Some(path[i - 1]));
        assert(pred_edge(d, g, path[i] as int));
        reveal(pred_edge);
        let eid = choose|eid: usize|
            #[trigger] g.outgoing_ids(d.predecessor@[path[i] as int]->0).contains(eid)
                && g.edge_of(eid).dest == path[i] as int;
        assert(g.outgoing_ids(path[i - 1]).contains(eid));
    }
}


/// Edge ids realizing a path: one edge per consecutive vertex pair,
/// registered in the earlier vertex's outgoing set.
pub open spec fn out_edge_ids_connect(g: DirectedGraph, path: Seq<usize>, eids: Seq<usize>) -> bool {
    &&& eids.len() + 1 == path.len()
    &&& forall|i: int|
        0 <= i < eids.len() ==> g.outgoing_ids(path[i]).contains(#[trigger] eids[i])
            && g.edge_of(eids[i]).dest == path[i + 1]
}

/// A reconstructed Dijkstra path's summed weight equals the reported
/// distance difference: every finalized finite score carries a relaxation
/// witness, and the witness weights telescope along the predecessor chain.
/// With the start vertex at the head (distance 0), the sum is exactly the
/// reported distance of the destination.
#[verifier::rlimit(100)]
#[verifier::spinoff_prover]
pub proof fn lemma_dijkstra_path_weight(d: Dijkstra, g: DirectedGraph, path: Seq<usize>)
    requires
        d.inv(g),
        path.len() >= 1,
        forall|i: int| 0 <= i < path.len() ==> #[trigger] path[i] < d.pool_len(),
        forall|i: int|
            0 < i < path.len() ==> d.predecessor@[#[trigger] path[i] as int] == Some(path[i - 1]),
        d.processed(path[path.len() - 1] as int),
        d.score(path[path.len() - 1] as int) is Value,
    ensures
        d.processed(path[0] as int),
        d.score(path[0] as int) is Value,
        exists|eids: Seq<usize>|
            #[trigger] out_edge_ids_connect(g, path, eids) && crate::bellman::weight_sum(g, eids)
                == d.score(path[path.len() - 1] as int)->Value_0 - d.score(
                path[0] as int,
            )->Value_0,
    decreases path.len(),
{
    if path.len() == 1 {
        let eids = Seq::<usize>::empty();
        assert(out_edge_ids_connect(g, path, eids));
        assert(crate::bellman::weight_sum(g, eids) == 0);
    } else {
        let n = path.len() as int;
        let v = path[n - 1];
        let u = path[n - 2];
        assert(d.predecessor@[v as int] == Some(u));
        assert(v as int != d.starting_vertex as int) by {
            if v == d.starting_vertex {
                assert(d.predecessor@[d.starting_vertex as int] is None);
            }
        }
        assert(relax_witness(d, g, v as int, d.score(v as int)));
        reveal(relax_witness);
        let eid = choose|eid: usize|
            {
                &&& d.predecessor@[v as int] is Some
                &&& d.predecessor@[v as int]->0 < d.pool_len()
                &&& d.processed(d.predecessor@[v as int]->0 as int)
                &&& d.score(d.predecessor@[v as int]->0 as int) is Value
                &&& #[trigger] g.outgoing_ids(d.predecessor@[v as int]->0).contains(eid)
                &&& g.edge_of(eid).dest == v as int
                &&& d.score(v as int) == MinMax::<int>::Value(
                    d.score(d.predecessor@[v as int]->0 as int)->Value_0 + g.edge_of(eid).weight,
                )
            };
        assert(d.processed(u as int) && d.score(u as int) is Value);
        let prefix = path.drop_last();
        assert forall|i: int| 0 <= i < prefix.len() implies #[trigger] prefix[i]
            < d.pool_len() by {
            assert(prefix[i] == path[i]);
        }
        assert forall|i: int|
            0 < i < prefix.len() implies d.predecessor@[#[trigger] prefix[i] as int] == Some(
            prefix[i - 1],
        ) by {
            assert(prefix[i] == path[i]);
            assert(prefix[i - 1] == path[i - 1]);
        }
        assert(prefix[prefix.len() - 1] == u);
        lemma_dijkstra_path_weight(d, g, prefix);
        let eids0 = choose|eids: Seq<usize>|
            #[trigger] out_edge_ids_connect(g, prefix, eids) && crate::bellman::weight_sum(g, eids)
                == d.score(prefix[prefix.len() - 1] as int)->Value_0 - d.score(
                prefix[0] as int,
            )->Value_0;
        let eids = eids0.push(eid);
        assert(eids.drop_last() =~= eids0);
        assert(eids.last() == eid);
        assert(crate::bellman::weight_sum(g, eids) == crate::bellman::weight_sum(g, eids0)
            + g.edge_of(eid).weight);
        assert(out_edge_ids_connect(g, path, eids)) by {
            assert forall|i: int|
                0 <= i < eids.len() implies g.outgoing_ids(path[i]).contains(#[trigger] eids[i])
                && g.edge_of(eids[i]).dest == path[i + 1] by {
                if i < eids.len() - 1 {
                    assert(eids[i] == eids0[i]);
                    assert(prefix[i] == path[i]);
                    assert(prefix[i + 1] == path[i + 1]);
                } else {
                    assert(eids[i] == eid);
                    assert(g.outgoing_ids(u).contains(eid));
                }
            }
        }
        assert(path[0] == prefix[0]);
    }
}


/// A freshly initialized pool satisfies the running invariant against any
/// graph: nothing is finalized and every queued key is still `Max`.
proof fn lemma_initialized_inv(d: Dijkstra, g: DirectedGraph)
    requires
        d.is_initialized(),
    ensures
        d.inv(g),
        dominance(d),
        settled(d, g),
{
    assert forall|i: int|
        0 <= i < d.processed_vertex@.len() implies !(#[trigger] d.processed_vertex@[i]
        is Some) by {
        assert(!d.processed(i));
    }
    lemma_count_some_zero(d.processed_vertex@);
    assert forall|v: int|
        0 <= v < d.pool_len() && #[trigger] d.in_queue(v) && d.queue_key(v) is Value
        implies false by {
        assert(d.queue_key(v) == MinMax::<int>::Max);
    }
}

/// One pop-finalize-relax round preserves dominance and settledness when
/// every edge weight is non-negative.
#[verifier::rlimit(100)]
#[verifier::spinoff_prover]
proof fn lemma_step_settled(
    d1: Dijkstra,
    d3: Dijkstra,
    d4: Dijkstra,
    g: DirectedGraph,
    next: usize,
    key: MinMax<i64>,
)
    requires
        g.wf(),
        nonneg_weights(g),
        g.has_vertex(next),
        d1.inv(g),
        dominance(d1),
        settled(d1, g),
        next < d1.pool_len(),
        d1.in_queue(next as int),
        forall|u: int|
            0 <= u < d1.pool_len() && #[trigger] d1.in_queue(u) ==> crate::bellman::mm_le(
                mm_int(key),
                d1.queue_key(u),
            ),
        mm_int(key) == d1.queue_key(next as int) || (forall|u: int|
            0 <= u < d1.pool_len() ==> !#[trigger] d1.processed(u)),
        d3.unprocessed_vertex@ == d1.unprocessed_vertex@.update(next as int, None),
        d3.processed_vertex@ == d1.processed_vertex@.update(
            next as int,
            Some(VertexInfo { score: key, preceeding_vertex: d1.predecessor@[next as int] }),
        ),
        d3.predecessor@ == d1.predecessor@,
        d3.starting_vertex == d1.starting_vertex,
        d4.inv(g),
        d4.pool_len() == d3.pool_len(),
        d4.processed_vertex == d3.processed_vertex,
        forall|v: int| 0 <= v < d3.pool_len() ==> (d4.in_queue(v) == d3.in_queue(v)),
        !(mm_int(key) is Value) ==> d4 == d3,
        mm_int(key) is Value ==> forall|v: int|
            0 <= v < d3.pool_len() && d3.in_queue(v) ==> #[trigger] d4.queue_key(v) == relax_keys(
                g,
                mm_int(key)->Value_0,
                g.outgoing_ids(next),
                g.outgoing_ids(next).len() as int,
                v,
                d3.queue_key(v),
            ),
    ensures
        dominance(d4),
        settled(d4, g),
{
    let pool = d1.pool_len();
    let ids = g.outgoing_ids(next);
    let n = ids.len() as int;
    assert forall|j: int| 0 <= j < n implies g.has_edge(#[trigger] ids[j]) && g.edge_of(
        ids[j],
    ).weight >= 0 by {
        let vi = g.vindex(next);
        g.lemma_vindex(next, vi);
        assert(g.vertex_map@[vi].outgoing@[j] == ids[j]);
        assert(g.has_edge(ids[j]));
    }
    assert forall|v: int| 0 <= v < pool implies (d3.processed(v) <==> (d1.processed(v) || v
        == next as int)) && (d3.in_queue(v) <==> (d1.in_queue(v) && v != next as int)) by {
        if v != next as int {
            assert(d3.processed_vertex@[v] == d1.processed_vertex@[v]);
            assert(d3.unprocessed_vertex@[v] == d1.unprocessed_vertex@[v]);
        }
    }
    assert(d3.score(next as int) == mm_int(key));
    assert forall|v: int|
        0 <= v < pool && v != next as int implies d3.score(v) == d1.score(v) && d3.queue_key(v)
        == d1.queue_key(v) by {
        assert(d3.processed_vertex@[v] == d1.processed_vertex@[v]);
        assert(d3.unprocessed_vertex@[v] == d1.unprocessed_vertex@[v]);
    }
    assert(!d1.processed(next as int));
    if mm_int(key) is Value {
        let dd = mm_int(key)->Value_0;
        assert forall|u: int, v: int|
            0 <= u < d4.pool_len() && 0 <= v < d4.pool_len() && #[trigger] d4.processed(u)
                && #[trigger] d4.in_queue(v) implies crate::bellman::mm_le(
            d4.score(u),
            d4.queue_key(v),
        ) by {
            assert(d4.score(u) == d3.score(u));
            assert(d3.in_queue(v) && v != next as int);
            assert(d4.queue_key(v) == relax_keys(g, dd, ids, n, v, d3.queue_key(v)));
            lemma_relax_keys_ge(g, dd, ids, n, v, d3.queue_key(v));
            if u == next as int {
                assert(d4.score(u) == mm_int(key));
                if d4.queue_key(v) == d3.queue_key(v) {
                    assert(d1.in_queue(v));
                    assert(crate::bellman::mm_le(mm_int(key), d1.queue_key(v)));
                } else {
                    assert(d4.queue_key(v) is Value && d4.queue_key(v)->Value_0 >= dd);
                }
            } else {
                assert(d1.processed(u));
                assert(d1.in_queue(next as int));
                assert(crate::bellman::mm_le(d1.score(u), d1.queue_key(next as int)));
                assert(d1.queue_key(next as int) == mm_int(key));
                assert(d1.score(u) is Value || d1.score(u) is Max);
                assert(d1.score(u) is Value);
                if d4.queue_key(v) == d3.queue_key(v) {
                    assert(d1.in_queue(v));
                    assert(crate::bellman::mm_le(d1.score(u), d1.queue_key(v)));
                } else {
                    assert(d4.queue_key(v) is Value && d4.queue_key(v)->Value_0 >= dd);
                    assert(d1.score(u)->Value_0 <= dd);
                }
            }
        }
        assert forall|u: int, eid: usize|
            0 <= u < d4.pool_len() && d4.processed(u) && d4.score(u) is Value
                && #[trigger] g.outgoing_ids(u as usize).contains(eid) implies settled_edge(
            d4,
            g,
            u,
            eid,
        ) by {
            let w = g.edge_of(eid).weight;
            let t = g.edge_of(eid).dest as int;
            assert(d4.score(u) == d3.score(u));
            if u == next as int {
                assert(d4.score(u) == mm_int(key));
                let j = choose|j: int| 0 <= j < n && ids[j] == eid;
                assert(w >= 0);
                if d4.in_queue(t) {
                    assert(d3.in_queue(t));
                    assert(d4.queue_key(t) == relax_keys(g, dd, ids, n, t, d3.queue_key(t)));
                    lemma_relax_keys_le_cand(g, dd, ids, n, j, t, d3.queue_key(t));
                }
                if d4.processed(t) {
                    if t == next as int {
                        assert(crate::bellman::mm_le(
                            d4.score(t),
                            MinMax::Value(dd + w),
                        ));
                    } else {
                        assert(d1.processed(t));
                        assert(d1.in_queue(next as int));
                        assert(crate::bellman::mm_le(d1.score(t), d1.queue_key(next as int)));
                        assert(d1.queue_key(next as int) == mm_int(key));
                        assert(d4.score(t) == d1.score(t));
                    }
                }
            } else {
                assert(d1.processed(u));
                assert(d1.score(u) is Value);
                assert(settled_edge(d1, g, u, eid));
                if d4.in_queue(t) {
                    assert(d3.in_queue(t) && t != next as int);
                    assert(d1.in_queue(t));
                    assert(crate::bellman::mm_le(
                        d1.queue_key(t),
                        MinMax::Value(d1.score(u)->Value_0 + w),
                    ));
                    assert(d4.queue_key(t) == relax_keys(g, dd, ids, n, t, d3.queue_key(t)));
                    lemma_relax_keys_le_prefix(g, dd, ids, n, 0, t, d3.queue_key(t));
                    assert(d3.queue_key(t) == d1.queue_key(t));
                    crate::bellman::lemma_mm_le_trans(
                        d4.queue_key(t),
                        d1.queue_key(t),
                        MinMax::Value(d1.score(u)->Value_0 + w),
                    );
                }
                if d4.processed(t) {
                    assert(d4.score(t) == d3.score(t));
                    if t == next as int {
                        assert(d1.in_queue(t));
                        assert(crate::bellman::mm_le(
                            d1.queue_key(t),
                            MinMax::Value(d1.score(u)->Value_0 + w),
                        ));
                        assert(d3.score(t) == mm_int(key));
                        assert(mm_int(key) == d1.queue_key(next as int));
                    } else {
                        assert(d1.processed(t));
                        assert(d3.score(t) == d1.score(t));
                    }
                }
            }
        }
    } else {
        assert(d4 == d3);
        assert forall|u: int, v: int|
            0 <= u < d4.pool_len() && 0 <= v < d4.pool_len() && #[trigger] d4.processed(u)
                && #[trigger] d4.in_queue(v) implies crate::bellman::mm_le(
            d4.score(u),
            d4.queue_key(v),
        ) by {
            assert(d3.in_queue(v) && v != next as int);
            assert(d1.in_queue(v));
            assert(d3.queue_key(v) == d1.queue_key(v));
            if u == next as int {
                assert(d3.score(u) == mm_int(key));
                assert(crate::bellman::mm_le(mm_int(key), d1.queue_key(v)));
            } else {
                assert(d1.processed(u));
                assert(crate::bellman::mm_le(d1.score(u), d1.queue_key(v)));
                assert(d3.score(u) == d1.score(u));
            }
        }
        assert forall|u: int, eid: usize|
            0 <= u < d4.pool_len() && d4.processed(u) && d4.score(u) is Value
                && #[trigger] g.outgoing_ids(u as usize).contains(eid) implies settled_edge(
            d4,
            g,
            u,
            eid,
        ) by {
            let w = g.edge_of(eid).weight;
            let t = g.edge_of(eid).dest as int;
            assert(u != next as int);
            assert(d1.processed(u));
            assert(d3.score(u) == d1.score(u));
            assert(d1.score(u) is Value);
            assert(settled_edge(d1, g, u, eid));
            if d4.in_queue(t) {
                assert(d3.in_queue(t) && t != next as int);
                assert(d1.in_queue(t));
                assert(d3.queue_key(t) == d1.queue_key(t));
            }
            if d4.processed(t) {
                if t == next as int {
                    assert(d1.in_queue(t));
                    assert(crate::bellman::mm_le(
                        d1.queue_key(t),
                        MinMax::Value(d1.score(u)->Value_0 + w),
                    ));
                    assert(mm_int(key) == d1.queue_key(next as int));
                    assert(d3.score(t) == mm_int(key));
                } else {
                    assert(d1.processed(t));
                    assert(d3.score(t) == d1.score(t));
                }
            }
        }
    }
}


/// In a settled engine, a finalized score is at most the weight of any
/// connected path of finalized vertices from a finite-score head: no path
/// undercuts the labels.  With the start vertex (score 0) at the head, and
/// the telescoping equality realizing the score along the predecessor
/// chain, the finalized score is exactly the minimum path weight.
pub proof fn lemma_score_at_most_path_weight(
    d: Dijkstra,
    g: DirectedGraph,
    path: Seq<usize>,
    eids: Seq<usize>,
)
    requires
        d.inv(g),
        g.wf(),
        settled(d, g),
        path.len() >= 1,
        out_edge_ids_connect(g, path, eids),
        forall|i: int|
            0 <= i < path.len() ==> (#[trigger] path[i] as int) < d.pool_len() && d.processed(
                path[i] as int,
            ),
        d.score(path[0] as int) is Value,
    ensures
        d.score(path[path.len() - 1] as int) is Value,
        d.score(path[path.len() - 1] as int)->Value_0 <= d.score(path[0] as int)->Value_0
            + crate::bellman::weight_sum(g, eids),
    decreases path.len(),
{
    if path.len() == 1 {
        assert(eids.len() == 0);
    } else {
        let n = path.len() as int;
        let prefix = path.drop_last();
        let epre = eids.drop_last();
        assert forall|i: int|
            0 <= i < epre.len() implies g.outgoing_ids(prefix[i]).contains(#[trigger] epre[i])
            && g.edge_of(epre[i]).dest == prefix[i + 1] by {
            assert(epre[i] == eids[i]);
            assert(prefix[i] == path[i]);
            assert(prefix[i + 1] == path[i + 1]);
        }
        assert forall|i: int|
            0 <= i < prefix.len() implies (#[trigger] prefix[i] as int) < d.pool_len()
            && d.processed(prefix[i] as int) by {
            assert(prefix[i] == path[i]);
        }
        lemma_score_at_most_path_weight(d, g, prefix, epre);
        let u = path[n - 2];
        let v = path[n - 1];
        let eid = eids[n - 2];
        assert(g.outgoing_ids(u).contains(eid));
        assert(g.edge_of(eid).dest == v);
        assert(d.processed(u as int) && d.score(u as int) is Value);
        assert(g.outgoing_ids(((u as int) as usize)).contains(eid));
        assert(settled_edge(d, g, u as int, eid));
        assert(d.processed(v as int));
        assert(crate::bellman::mm_le(
            d.score(v as int),
            MinMax::Value(d.score(u as int)->Value_0 + g.edge_of(eid).weight),
        ));
        assert(d.score(v as int) is Value || d.score(v as int) is Max);
        assert(d.score(v as int) is Value);
        assert(eids.drop_last() == epre);
        assert(crate::bellman::weight_sum(g, eids) == crate::bellman::weight_sum(g, epre)
            + g.edge_of(eids.last()).weight);
        assert(eids.last() == eid);
    }
}


/// A predecessor-chain path to a finalized vertex with a finite score
/// begins at the starting vertex: every finite score carries a relaxation
/// witness, so the chain can only stop where the walk began.
pub proof fn lemma_reachable_path_starts_at_source(
    d: Dijkstra,
    g: DirectedGraph,
    dest: usize,
    path: Seq<usize>,
)
    requires
        d.inv(g),
        d.processed(dest as int),
        d.score(dest as int) is Value,
        path.len() >= 1,
        path[path.len() - 1] == dest,
        forall|i: int|
            0 < i < path.len() ==> #[trigger] path[i] < d.predecessor@.len() && d.predecessor@[
                path[i] as int] == Some(path[i - 1]),
        path[0] == d.starting_vertex || (path[0] < d.predecessor@.len() && d.predecessor@[
            path[0] as int] is None),
    ensures
        path[0] == d.starting_vertex,
    decreases path.len(),
{
    if path.len() == 1 {
        if path[0] != d.starting_vertex {
            assert(dest as int != d.starting_vertex as int);
            assert(relax_witness(d, g, dest as int, d.score(dest as int)));
            reveal(relax_witness);
            assert(d.predecessor@[dest as int] is Some);
            assert(false);
        }
    } else {
        let n = path.len() as int;
        if dest == d.starting_vertex {
            assert(d.predecessor@[d.starting_vertex as int] is None);
            assert(d.predecessor@[path[n - 1] as int] == Some(path[n - 2]));
            assert(false);
        }
        assert(relax_witness(d, g, dest as int, d.score(dest as int)));
        reveal(relax_witness);
        let u = path[n - 2];
        assert(d.predecessor@[dest as int] == Some(u));
        assert(d.processed(u as int));
        assert(d.score(u as int) is Value);
        let prefix = path.drop_last();
        assert(prefix[prefix.len() - 1] == u);
        assert forall|i: int|
            0 < i < prefix.len() implies #[trigger] prefix[i] < d.predecessor@.len()
            && d.predecessor@[prefix[i] as int] == Some(prefix[i - 1]) by {
            assert(prefix[i] == path[i]);
            assert(prefix[i - 1] == path[i - 1]);
        }
        assert(prefix[0] == path[0]);
        lemma_reachable_path_starts_at_source(d, g, u, prefix);
    }
}

} // verus!
