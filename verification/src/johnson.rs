//! Johnson's algorithm: all-pairs shortest paths on graphs with negative
//! edges.  A synthetic super-source (the reserved vertex 0) is wired to
//! every vertex with zero-weight edges, Bellman-Ford from it yields the
//! potentials and the negative-cycle verdict, the edges are reweighted
//! non-negatively, and one Dijkstra run per source is folded into the
//! per-source result table.  A detected negative cycle is terminal: no
//! partial results are ever produced.

use crate::bellman::Bellman;
use crate::bellman::MAX_EDGE_WEIGHT;
use crate::bellman::MAX_TABLE_WIDTH;
use crate::bellman::converged_at;
use crate::bellman::ids_below;
use crate::bellman::weights_bounded;
use crate::dijkstra::Dijkstra;
use crate::dijkstra::MAX_DIJKSTRA_WEIGHT;
use crate::dirgraph::DirectedGraph;
use crate::minmax::MinMax;
use crate::minmax::mm_int;
use crate::minmax::mm_lt;
use crate::shortpathinfo::ShortestPathInfo;
use vstd::prelude::*;

verus! {

/// The Johnson orchestrator: it owns the working graph for the whole
/// computation, mutating it only while inserting the super-source.
pub struct Johnson {
    pub graph: DirectedGraph,
    /// Per-source result tables: one entry per original source vertex,
    /// ascending, each holding that source's per-destination records.
    pub shortest_path_info: Vec<(usize, Vec<ShortestPathInfo>)>,
    pub found_negative_cycle: bool,
    /// The number of vertices including the super-source.
    pub num_vertex: usize,
}

/// The edges of the reweighted graph: every stored edge whose source is
/// not the super-source and whose endpoints' potentials are finite, in
/// storage order, renumbered from 1, with weight `w + h(u) - h(v)`.
pub open spec fn reweighted_edges(
    edges: Seq<crate::dirgraph::Edge>,
    h: Seq<MinMax<i64>>,
) -> Seq<crate::dirgraph::Edge>
    decreases edges.len(),
{
    if edges.len() == 0 {
        Seq::empty()
    } else {
        let rest = reweighted_edges(edges.drop_last(), h);
        let e = edges.last();
        if e.source != 0 && e.source < h.len() && e.dest < h.len() && h[e.source as int] is Value
            && h[e.dest as int] is Value {
            rest.push(
                crate::dirgraph::Edge {
                    edge_id: (rest.len() + 1) as usize,
                    source: e.source,
                    dest: e.dest,
                    weight: (e.weight + h[e.source as int]->Value_0 - h[e.dest as int]->Value_0)
                        as i64,
                },
            )
        } else {
            rest
        }
    }
}

/// Reweighting keeps at most one edge per stored edge.
pub proof fn lemma_reweighted_len(edges: Seq<crate::dirgraph::Edge>, h: Seq<MinMax<i64>>)
    ensures
        reweighted_edges(edges, h).len() <= edges.len(),
    decreases edges.len(),
{
    if edges.len() > 0 {
        lemma_reweighted_len(edges.drop_last(), h);
    }
}

/// Each reweighted edge descends from a stored edge of the source graph:
/// same endpoints, sequential id, and the adjusted weight.
pub proof fn lemma_reweighted_elem(edges: Seq<crate::dirgraph::Edge>, h: Seq<MinMax<i64>>, j: int)
    requires
        0 <= j < reweighted_edges(edges, h).len(),
    ensures
        exists|i: int|
            0 <= i < edges.len() && (#[trigger] edges[i]).source != 0 && edges[i].source < h.len()
                && edges[i].dest < h.len() && h[edges[i].source as int] is Value && h[edges[
                i].dest as int] is Value && reweighted_edges(edges, h)[j]
                == (crate::dirgraph::Edge {
                edge_id: (j + 1) as usize,
                source: edges[i].source,
                dest: edges[i].dest,
                weight: (edges[i].weight + h[edges[i].source as int]->Value_0 - h[edges[
                    i].dest as int]->Value_0) as i64,
            }),
    decreases edges.len(),
{
    let rw = reweighted_edges(edges, h);
    let rest = reweighted_edges(edges.drop_last(), h);
    let e = edges.last();
    if e.source != 0 && e.source < h.len() && e.dest < h.len() && h[e.source as int] is Value
        && h[e.dest as int] is Value {
        if j == rest.len() {
            assert(rw[j] == (crate::dirgraph::Edge {
                edge_id: (j + 1) as usize,
                source: e.source,
                dest: e.dest,
                weight: (e.weight + h[e.source as int]->Value_0 - h[e.dest as int]->Value_0)
                    as i64,
            }));
            assert(edges[edges.len() - 1] == e);
        } else {
            lemma_reweighted_elem(edges.drop_last(), h, j);
            let i = choose|i: int|
                0 <= i < edges.drop_last().len() && (#[trigger] edges.drop_last()[i]).source != 0
                    && edges.drop_last()[i].source < h.len() && edges.drop_last()[i].dest < h.len()
                    && h[edges.drop_last()[i].source as int] is Value && h[edges.drop_last()[
                    i].dest as int] is Value && reweighted_edges(edges.drop_last(), h)[j]
                    == (crate::dirgraph::Edge {
                    edge_id: (j + 1) as usize,
                    source: edges.drop_last()[i].source,
                    dest: edges.drop_last()[i].dest,
                    weight: (edges.drop_last()[i].weight + h[edges.drop_last()[
                        i].source as int]->Value_0 - h[edges.drop_last()[i].dest as int]->Value_0)
                        as i64,
                });
            assert(edges[i] == edges.drop_last()[i]);
            assert(rw[j] == rest[j]);
        }
    } else {
        lemma_reweighted_elem(edges.drop_last(), h, j);
        let i = choose|i: int|
            0 <= i < edges.drop_last().len() && (#[trigger] edges.drop_last()[i]).source != 0
                && edges.drop_last()[i].source < h.len() && edges.drop_last()[i].dest < h.len()
                && h[edges.drop_last()[i].source as int] is Value && h[edges.drop_last()[
                i].dest as int] is Value && reweighted_edges(edges.drop_last(), h)[j]
                == (crate::dirgraph::Edge {
                edge_id: (j + 1) as usize,
                source: edges.drop_last()[i].source,
                dest: edges.drop_last()[i].dest,
                weight: (edges.drop_last()[i].weight + h[edges.drop_last()[i].source as int]->Value_0
                    - h[edges.drop_last()[i].dest as int]->Value_0) as i64,
            });
        assert(edges[i] == edges.drop_last()[i]);
    }
}

/// At a Bellman-Ford fixpoint over the super-source, every reweighted edge
/// weight is non-negative.
#[verifier::rlimit(100)]
#[verifier::spinoff_prover]
pub proof fn lemma_gp_nonneg(
    g: DirectedGraph,
    h: Seq<MinMax<i64>>,
    gp: DirectedGraph,
    width: nat,
    k: nat,
)
    requires
        g.wf(),
        width <= MAX_TABLE_WIDTH,
        k <= MAX_TABLE_WIDTH,
        weights_bounded(g, MAX_EDGE_WEIGHT),
        ids_below(g, width as usize),
        forall|i: int|
            0 <= i < g.edge_map@.len() ==> g.incoming_ids(
                (#[trigger] g.edge_map@[i]).dest,
            ).contains(g.edge_map@[i].edge_id),
        h.len() == width,
        forall|x: int|
            0 <= x < h.len() ==> mm_int(#[trigger] h[x]) == crate::bellman::bf_row(
                g,
                0,
                width,
                k,
            )[x],
        k >= 1,
        crate::bellman::bf_row(g, 0, width, k) == crate::bellman::bf_row(
            g,
            0,
            width,
            (k - 1) as nat,
        ),
        gp.wf(),
        gp.edge_map@ == reweighted_edges(g.edge_map@, h),
    ensures
        crate::dijkstra::nonneg_weights(gp),
{
    crate::bellman::lemma_row_len(g, 0, width, k);
    crate::bellman::lemma_row_bound(g, 0, width, k);
    assert forall|e: usize| #[trigger] gp.has_edge(e) implies gp.edge_of(e).weight >= 0 by {
        let j = choose|j: int| 0 <= j < gp.ekeys().len() && gp.ekeys()[j] == e;
        assert(gp.edge_map@[j].edge_id == e);
        gp.lemma_eindex(e, j);
        lemma_reweighted_elem(g.edge_map@, h, j);
        let i = choose|i: int|
            0 <= i < g.edge_map@.len() && (#[trigger] g.edge_map@[i]).source != 0
                && g.edge_map@[i].source < h.len() && g.edge_map@[i].dest < h.len() && h[g.edge_map@[
                i].source as int] is Value && h[g.edge_map@[i].dest as int] is Value
                && reweighted_edges(g.edge_map@, h)[j] == (crate::dirgraph::Edge {
                edge_id: (j + 1) as usize,
                source: g.edge_map@[i].source,
                dest: g.edge_map@[i].dest,
                weight: (g.edge_map@[i].weight + h[g.edge_map@[i].source as int]->Value_0 - h[
                    g.edge_map@[i].dest as int]->Value_0) as i64,
            });
        let se = g.edge_map@[i];
        g.lemma_eindex(se.edge_id, i);
        assert(g.has_edge(se.edge_id));
        assert(g.edge_of(se.edge_id) == se);
        assert(-MAX_EDGE_WEIGHT <= se.weight <= MAX_EDGE_WEIGHT);
        assert(g.has_vertex(se.dest) && g.has_vertex(se.source));
        assert(se.dest < width && se.source < width);
        assert(g.incoming_ids(se.dest).contains(se.edge_id));
        assert(mm_int(h[se.source as int]) == crate::bellman::bf_row(g, 0, width, k)[
            se.source as int]);
        assert(crate::bellman::bf_row(g, 0, width, k)[se.source as int] is Value);
        crate::bellman::lemma_reweighting_nonnegative(g, 0, width, k, se.dest, se.edge_id);
        assert(se.weight + crate::bellman::bf_row(g, 0, width, k)[se.source as int]->Value_0
            - crate::bellman::bf_row(g, 0, width, k)[se.dest as int]->Value_0 >= 0);
        assert(h[se.source as int]->Value_0 as int == crate::bellman::bf_row(g, 0, width, k)[
            se.source as int]->Value_0);
        assert(h[se.dest as int]->Value_0 as int == crate::bellman::bf_row(g, 0, width, k)[
            se.dest as int]->Value_0);
        assert((k as int) * MAX_EDGE_WEIGHT <= 100000 * MAX_EDGE_WEIGHT) by (nonlinear_arith)
            requires
                0 <= k as int <= 100000,
                MAX_EDGE_WEIGHT > 0,
        ;
        assert(gp.edge_of(e).weight as int == se.weight + h[se.source as int]->Value_0 - h[
            se.dest as int]->Value_0);
    }
}

/// A graph is exactly the reweighting of another under potentials `h`: its
/// edge storage is `reweighted_edges`, every edge is registered in both
/// endpoints' adjacency sets, and every vertex is an endpoint of some edge.
pub open spec fn reweighted_graph(
    g: DirectedGraph,
    h: Seq<MinMax<i64>>,
    gp: DirectedGraph,
) -> bool {
    &&& gp.wf()
    &&& gp.edge_map@ == reweighted_edges(g.edge_map@, h)
    &&& forall|i: int|
        0 <= i < gp.edge_map@.len() ==> gp.outgoing_ids((#[trigger] gp.edge_map@[i]).source).contains(
            gp.edge_map@[i].edge_id,
        ) && gp.incoming_ids(gp.edge_map@[i].dest).contains(gp.edge_map@[i].edge_id)
    &&& forall|v: usize|
        #[trigger] gp.has_vertex(v) ==> exists|i: int|
            0 <= i < gp.edge_map@.len() && ((#[trigger] gp.edge_map@[i]).source == v
                || gp.edge_map@[i].dest == v)
}

/// One stored result record against the engine state that produced it:
/// the destination was finalized, the path is its predecessor chain, and
/// the distance is the finalized score with the reweighting undone.
pub open spec fn record_ok(
    gp: DirectedGraph,
    h: Seq<MinMax<i64>>,
    start: usize,
    d: Dijkstra,
    rec: ShortestPathInfo,
) -> bool {
    &&& d.processed(rec.dest as int)
    &&& rec.source == start
    &&& !rec.has_negative_cycle
    &&& rec.path_len == rec.path@.len()
    &&& crate::dijkstra::opt_chain_ok(d.predecessor@, start, rec.dest, d.pool_len(), rec.path@)
    &&& rec.path@.len() <= d.pool_len() + 1
    &&& (d.score(rec.dest as int) is Value ==> rec.path@[0] == start)
    &&& start < h.len()
    &&& (rec.dest as int) < h.len()
    &&& mm_int(rec.distance) == (if h[start as int] is Value && h[rec.dest as int] is Value {
        crate::minmax::mm_plus(
            crate::minmax::mm_minus(d.score(rec.dest as int), mm_int(h[start as int])),
            mm_int(h[rec.dest as int]),
        )
    } else {
        d.score(rec.dest as int)
    })
}

/// One Dijkstra run against the reweighted graph: the engine emptied its
/// pool and finalized exactly the reweighted graph's vertices (when the
/// source is one of them), and it is settled and label-set under
/// non-negative weights.
pub open spec fn engine_run_ok(gp: DirectedGraph, start: usize, d: Dijkstra) -> bool {
    &&& d.inv(gp)
    &&& d.starting_vertex == start
    &&& forall|v: usize| #[trigger] gp.has_vertex(v) ==> (v as int) < d.pool_len()
    &&& (gp.has_vertex(start) ==> (forall|v: int|
        0 <= v < d.pool_len() ==> !#[trigger] d.in_queue(v)) && (forall|v: int|
        0 <= v < d.pool_len() ==> (#[trigger] d.processed(v) <==> gp.has_vertex(v as usize))))
    &&& (!gp.has_vertex(start) ==> forall|v: int|
        0 <= v < d.pool_len() ==> !#[trigger] d.processed(v))
    &&& (crate::dijkstra::nonneg_weights(gp) ==> crate::dijkstra::dominance(d)
        && crate::dijkstra::settled(d, gp))
    &&& crate::dijkstra::pred_ranked(d)
}

/// One per-source run with its result records: the records enumerate the
/// finalized vertices ascending, each with its adjusted distance and path.
pub open spec fn source_run_ok(
    gp: DirectedGraph,
    h: Seq<MinMax<i64>>,
    start: usize,
    d: Dijkstra,
    recs: Seq<ShortestPathInfo>,
) -> bool {
    &&& engine_run_ok(gp, start, d)
    &&& forall|j: int, k: int| 0 <= j < k < recs.len() ==> recs[j].dest < recs[k].dest
    &&& forall|j: int| 0 <= j < recs.len() ==> record_ok(gp, h, start, d, #[trigger] recs[j])
    &&& forall|v: int|
        0 <= v < d.pool_len() && #[trigger] d.processed(v) ==> exists|j: int|
            0 <= j < recs.len() && (#[trigger] recs[j]).dest == v
}

/// The Bellman-Ford negative-cycle verdict for a graph as Johnson runs it:
/// distances from the super-source still change in the last permitted
/// iteration.
pub open spec fn johnson_negative_cycle(g: DirectedGraph, num_vertex: usize) -> bool {
    num_vertex + 1 >= 2 && !converged_at(g, 0, (num_vertex + 1) as nat, num_vertex as int)
}

impl Johnson {
    /// Takes ownership of the graph, inserts the reserved vertex 0, and
    /// wires a zero-weight edge from it to every original vertex so that
    /// Bellman-Ford reaches the whole graph.
    pub fn new(graph: DirectedGraph) -> (j: Johnson)
        requires
            graph.wf(),
            !graph.has_vertex(0),
            graph.next_edge_id + graph.vkeys().len() + 1 < usize::MAX,
            forall|i: int|
                0 <= i < graph.edge_map@.len() ==> (#[trigger] graph.edge_map@[i]).dest != 0
                    && graph.incoming_ids(graph.edge_map@[i].dest).contains(
                    graph.edge_map@[i].edge_id,
                ),
        ensures
            j.graph.wf(),
            j.graph.has_vertex(0),
            forall|x: usize| j.graph.has_vertex(x) <==> (graph.has_vertex(x) || x == 0),
            j.num_vertex == j.graph.vkeys().len(),
            j.shortest_path_info@.len() == 0,
            !j.found_negative_cycle,
            forall|e: usize| #[trigger] graph.has_edge(e) ==> j.graph.has_edge(e) && j.graph.edge_of(e) == graph.edge_of(e),
            forall|e: usize| #[trigger] j.graph.has_edge(e) ==> (graph.has_edge(e) || j.graph.edge_of(e).source == 0 && j.graph.edge_of(e).weight == 0),
            forall|v: usize|
                #[trigger] graph.has_vertex(v) ==> exists|e: usize|
                    {
                        &&& j.graph.has_edge(e)
                        &&& j.graph.edge_of(e) == (crate::dirgraph::Edge {
                            edge_id: e,
                            source: 0,
                            dest: v,
                            weight: 0,
                        })
                        &&& #[trigger] j.graph.outgoing_ids(0).contains(e)
                        &&& j.graph.incoming_ids(v).contains(e)
                    },
            forall|i: int|
                0 <= i < j.graph.edge_map@.len() ==> (#[trigger] j.graph.edge_map@[i]).dest != 0
                    && j.graph.incoming_ids(j.graph.edge_map@[i].dest).contains(
                    j.graph.edge_map@[i].edge_id,
                ),
            j.graph.edge_map@.len() == graph.edge_map@.len() + graph.vkeys().len(),
    {
        let mut g = graph;
        let ghost g0 = graph;
        let _ = g.define_vertex(0);
        let ghost ga = g;
        proof {
            assert forall|e: usize| #[trigger] g0.has_edge(e) implies ga.has_edge(e)
                && ga.edge_of(e) == g0.edge_of(e) by {
                crate::dirgraph::lemma_edge_of_eq(g0, ga, e);
            }
            assert(ga.ekeys() == g0.ekeys());
        }
        proof {
            assert forall|j: int|
                0 <= j < g.edge_map@.len() implies (#[trigger] g.edge_map@[j]).dest != 0
                && g.incoming_ids(g.edge_map@[j].dest).contains(g.edge_map@[j].edge_id) by {
                assert(g.edge_map@[j] == g0.edge_map@[j]);
                assert(g0.incoming_ids(g0.edge_map@[j].dest).contains(g0.edge_map@[j].edge_id));
                assert(g0.has_vertex(g0.edge_map@[j].dest));
                assert(g.vertex_of(g0.edge_map@[j].dest) == g0.vertex_of(g0.edge_map@[j].dest));
            }
        }
        let vertices = g.get_vertexes();
        proof {
            assert(ga.vkeys().contains(0usize));
            let z = choose|z: int| 0 <= z < ga.vkeys().len() && ga.vkeys()[z] == 0usize;
            if z > 0 {
                assert(ga.vkeys()[0] < ga.vkeys()[z]);
            }
            assert(vertices@[0] == 0usize);
            assert forall|jx: int| 1 <= jx < vertices@.len() implies #[trigger] vertices@[jx]
                != 0 by {
                assert(ga.vkeys()[0] < ga.vkeys()[jx]);
            }
        }
        let mut i: usize = 0;
        while i < vertices.len()
            invariant
                g.wf(),
                g.has_vertex(0),
                vertices@ == ga.vkeys(),
                g.vkeys() == ga.vkeys(),
                forall|x: usize| g.has_vertex(x) <==> (g0.has_vertex(x) || x == 0),
                i <= vertices@.len(),
                g0.next_edge_id + vertices@.len() < usize::MAX,
                g.next_edge_id <= g0.next_edge_id + i,
                forall|e: usize|
                    #[trigger] g0.has_edge(e) ==> g.has_edge(e) && g.edge_of(e) == g0.edge_of(e),
                forall|e: usize|
                    #[trigger] g.has_edge(e) ==> (g0.has_edge(e) || g.edge_of(e).source == 0
                        && g.edge_of(e).weight == 0),
                forall|j: int|
                    0 <= j < i && vertices@[j] != 0 ==> exists|e: usize|
                        {
                            &&& g.has_edge(e)
                            &&& g.edge_of(e) == (crate::dirgraph::Edge {
                                edge_id: e,
                                source: 0,
                                dest: #[trigger] vertices@[j],
                                weight: 0,
                            })
                            &&& g.outgoing_ids(0).contains(e)
                            &&& g.incoming_ids(vertices@[j]).contains(e)
                        },
                forall|j: int|
                    0 <= j < g.edge_map@.len() ==> (#[trigger] g.edge_map@[j]).dest != 0
                        && g.incoming_ids(g.edge_map@[j].dest).contains(g.edge_map@[j].edge_id),
                vertices@.len() >= 1 && vertices@[0] == 0usize,
                forall|jx: int| 1 <= jx < vertices@.len() ==> #[trigger] vertices@[jx] != 0,
                i == 0 ==> g.edge_map@.len() == g0.edge_map@.len(),
                i >= 1 ==> g.edge_map@.len() == g0.edge_map@.len() + i - 1,
            decreases vertices@.len() - i,
        {
            let v = vertices[i];
            proof {
                assert(ga.vkeys()[i as int] == v);
                assert(g.vkeys().contains(v));
            }
            if v != 0 {
                let ghost gp = g;
                let eid = g.add_super_edge(v);
                proof {
                    assert forall|e: usize|
                        #[trigger] g0.has_edge(e) implies g.has_edge(e) && g.edge_of(e)
                        == g0.edge_of(e) by {
                        assert(gp.has_edge(e));
                        assert(e != gp.next_edge_id);
                    }
                    assert(g.outgoing_ids(0).contains(eid));
                    assert(g.incoming_ids(v).contains(eid));
                    assert(g.edge_map@ == gp.edge_map@.push(
                        crate::dirgraph::Edge { edge_id: eid, source: 0, dest: v, weight: 0 },
                    ));
                    assert forall|j: int|
                        0 <= j < g.edge_map@.len() implies (#[trigger] g.edge_map@[j]).dest != 0
                        && g.incoming_ids(g.edge_map@[j].dest).contains(
                        g.edge_map@[j].edge_id,
                    ) by {
                        if j < gp.edge_map@.len() {
                            assert(g.edge_map@[j] == gp.edge_map@[j]);
                            assert(gp.incoming_ids(gp.edge_map@[j].dest).contains(
                                gp.edge_map@[j].edge_id,
                            ));
                        } else {
                            assert(g.edge_map@[j].edge_id == eid);
                        }
                    }
                    assert forall|j: int|
                        0 <= j < i + 1 && vertices@[j] != 0 implies exists|e: usize|
                        {
                            &&& g.has_edge(e)
                            &&& g.edge_of(e) == (crate::dirgraph::Edge {
                                edge_id: e,
                                source: 0,
                                dest: #[trigger] vertices@[j],
                                weight: 0,
                            })
                            &&& g.outgoing_ids(0).contains(e)
                            &&& g.incoming_ids(vertices@[j]).contains(e)
                        } by {
                        if j < i {
                            let e0 = choose|e0: usize|
                                {
                                    &&& gp.has_edge(e0)
                                    &&& gp.edge_of(e0) == (crate::dirgraph::Edge {
                                        edge_id: e0,
                                        source: 0,
                                        dest: vertices@[j],
                                        weight: 0,
                                    })
                                    &&& gp.outgoing_ids(0).contains(e0)
                                    &&& gp.incoming_ids(vertices@[j]).contains(e0)
                                };
                            assert(e0 != gp.next_edge_id);
                            assert(g.has_edge(e0) && g.edge_of(e0) == gp.edge_of(e0));
                            assert(g.outgoing_ids(0).contains(e0));
                            assert(g.incoming_ids(vertices@[j]).contains(e0));
                        }
                    }
                }
            }
            i = i + 1;
        }
        proof {
            assert forall|v: usize| #[trigger] g0.has_vertex(v) implies exists|e: usize|
                {
                    &&& g.has_edge(e)
                    &&& g.edge_of(e) == (crate::dirgraph::Edge {
                        edge_id: e,
                        source: 0,
                        dest: v,
                        weight: 0,
                    })
                    &&& #[trigger] g.outgoing_ids(0).contains(e)
                    &&& g.incoming_ids(v).contains(e)
                } by {
                assert(ga.has_vertex(v));
                assert(ga.vkeys().contains(v));
                let jx = choose|jx: int| 0 <= jx < vertices@.len() && vertices@[jx] == v;
                assert(v != 0);
                assert(vertices@[jx] != 0);
            }
        }
        let num_vertex = g.vertex_count();
        Johnson {
            graph: g,
            shortest_path_info: Vec::new(),
            found_negative_cycle: false,
            num_vertex,
        }
    }
}


impl Johnson {
    pub fn has_negative_cycle(&self) -> (r: bool)
        ensures
            r == self.found_negative_cycle,
    {
        self.found_negative_cycle
    }

    /// The per-source result tables, ascending by source vertex.
    pub fn results_iter(&self) -> (r: &Vec<(usize, Vec<ShortestPathInfo>)>)
        ensures
            r == &self.shortest_path_info,
    {
        &self.shortest_path_info
    }

    /// Builds the reweighted graph: every edge not originating at the
    /// super-source, with weight `w + h(u) - h(v)`; edges whose potentials
    /// never became finite are skipped.
    #[verifier::rlimit(100)]
    fn build_reweighted(&self, adjustments: &Vec<MinMax<i64>>) -> (gp: DirectedGraph)
        requires
            self.graph.ekeys().len() + 1 < usize::MAX,
            self.graph.wf(),
            weights_bounded(self.graph, MAX_EDGE_WEIGHT),
            ids_below(self.graph, (self.num_vertex + 1) as usize),
            self.num_vertex < MAX_TABLE_WIDTH,
            forall|i: int|
                0 <= i < self.graph.edge_map@.len() ==> (#[trigger] self.graph.edge_map@[i]).dest
                    != 0,
            adjustments@.len() == self.num_vertex + 1,
            forall|j: int|
                0 <= j < adjustments@.len() && #[trigger] adjustments@[j] is Value ==> -100000
                    * 100000000 <= adjustments@[j]->Value_0 <= 100000 * 100000000,
        ensures
            gp.wf(),
            weights_bounded(gp, MAX_DIJKSTRA_WEIGHT),
            forall|v: usize| #[trigger] gp.has_vertex(v) ==> v < self.num_vertex + 1,
            reweighted_graph(self.graph, adjustments@, gp),
    {
        let mut g_prime = DirectedGraph::new();
        let edges = self.graph.edge_iter();
        let mut ei: usize = 0;
        proof {
            assert(edges@.take(0) =~= Seq::<crate::dirgraph::Edge>::empty());
            assert(g_prime.edge_map@ =~= Seq::<crate::dirgraph::Edge>::empty());
        }
        while ei < edges.len()
            invariant
                self.graph.wf(),
                weights_bounded(self.graph, MAX_EDGE_WEIGHT),
                ids_below(self.graph, (self.num_vertex + 1) as usize),
                self.num_vertex < MAX_TABLE_WIDTH,
                forall|i: int|
                    0 <= i < self.graph.edge_map@.len() ==> (#[trigger] self.graph.edge_map@[i]).dest
                        != 0,
                adjustments@.len() == self.num_vertex + 1,
                forall|j: int|
                    0 <= j < adjustments@.len() && #[trigger] adjustments@[j] is Value ==> -100000
                        * 100000000 <= adjustments@[j]->Value_0 <= 100000 * 100000000,
                edges@ == self.graph.edge_map@,
                edges@.len() + 1 < usize::MAX,
                ei <= edges@.len(),
                g_prime.wf(),
                g_prime.edge_map@ == reweighted_edges(edges@.take(ei as int), adjustments@),
                g_prime.next_edge_id == g_prime.edge_map@.len() + 1,
                weights_bounded(g_prime, MAX_DIJKSTRA_WEIGHT),
                forall|v: usize| #[trigger] g_prime.has_vertex(v) ==> v < self.num_vertex + 1,
                forall|i: int|
                    0 <= i < g_prime.edge_map@.len() ==> g_prime.outgoing_ids(
                        (#[trigger] g_prime.edge_map@[i]).source,
                    ).contains(g_prime.edge_map@[i].edge_id) && g_prime.incoming_ids(
                        g_prime.edge_map@[i].dest,
                    ).contains(g_prime.edge_map@[i].edge_id),
                forall|v: usize|
                    #[trigger] g_prime.has_vertex(v) ==> exists|i: int|
                        0 <= i < g_prime.edge_map@.len() && ((#[trigger] g_prime.edge_map@[i]).source
                            == v || g_prime.edge_map@[i].dest == v),
            decreases edges@.len() - ei,
        {
            let e = edges[ei];
            proof {
                self.graph.lemma_eindex(e.edge_id, ei as int);
                assert(self.graph.has_edge(e.edge_id));
                assert(self.graph.edge_of(e.edge_id) == e);
                assert(self.graph.has_vertex(e.source) && self.graph.has_vertex(e.dest));
                assert(e.source < self.num_vertex + 1 && e.dest < self.num_vertex + 1);
                assert(-MAX_EDGE_WEIGHT <= e.weight <= MAX_EDGE_WEIGHT);
                assert(e.dest != 0);
                assert(edges@.take(ei + 1 as int).drop_last() =~= edges@.take(ei as int));
                assert(edges@.take(ei + 1 as int).last() == e);
                assert(edges@.take(ei as int).len() == ei);
                lemma_reweighted_len(edges@.take(ei as int), adjustments@);
            }
            if e.source != 0 {
                let sa = adjustments[e.source];
                let da = adjustments[e.dest];
                match (sa, da) {
                    (MinMax::Value(source_adj), MinMax::Value(dest_adj)) => {
                        let adj_weight = e.weight + source_adj - dest_adj;
                        let ghost gpre = g_prime;
                        let _ = g_prime.add_edge(e.source, e.dest, adj_weight);
                        proof {
                            let eid = gpre.next_edge_id;
                            assert(g_prime.edge_map@ == gpre.edge_map@.push(
                                crate::dirgraph::Edge {
                                    edge_id: eid,
                                    source: e.source,
                                    dest: e.dest,
                                    weight: adj_weight,
                                },
                            ));
                            assert(adj_weight as int == e.weight + source_adj - dest_adj);
                            assert(g_prime.edge_map@ == reweighted_edges(
                                edges@.take(ei + 1 as int),
                                adjustments@,
                            ));
                            assert forall|x: usize|
                                #[trigger] g_prime.has_edge(x) implies -MAX_DIJKSTRA_WEIGHT
                                <= g_prime.edge_of(x).weight <= MAX_DIJKSTRA_WEIGHT by {
                                if x != eid {
                                    assert(gpre.has_edge(x));
                                    assert(g_prime.edge_of(x) == gpre.edge_of(x));
                                }
                            }
                            assert forall|i: int|
                                0 <= i < g_prime.edge_map@.len() implies g_prime.outgoing_ids(
                                (#[trigger] g_prime.edge_map@[i]).source,
                            ).contains(g_prime.edge_map@[i].edge_id) && g_prime.incoming_ids(
                                g_prime.edge_map@[i].dest,
                            ).contains(g_prime.edge_map@[i].edge_id) by {
                                if i < gpre.edge_map@.len() {
                                    assert(g_prime.edge_map@[i] == gpre.edge_map@[i]);
                                    assert(gpre.outgoing_ids(gpre.edge_map@[i].source).contains(
                                        gpre.edge_map@[i].edge_id,
                                    ));
                                    assert(gpre.incoming_ids(gpre.edge_map@[i].dest).contains(
                                        gpre.edge_map@[i].edge_id,
                                    ));
                                } else {
                                    assert(g_prime.edge_map@[i].edge_id == eid);
                                    assert(g_prime.outgoing_ids(e.source).contains(eid));
                                    assert(g_prime.incoming_ids(e.dest).contains(eid));
                                }
                            }
                            assert forall|v: usize|
                                #[trigger] g_prime.has_vertex(v) implies exists|i: int|
                                0 <= i < g_prime.edge_map@.len() && ((
                                #[trigger] g_prime.edge_map@[i]).source == v
                                    || g_prime.edge_map@[i].dest == v) by {
                                if v == e.source || v == e.dest {
                                    assert(g_prime.edge_map@[g_prime.edge_map@.len() - 1].source
                                        == e.source);
                                } else {
                                    assert(gpre.has_vertex(v));
                                    let i = choose|i: int|
                                        0 <= i < gpre.edge_map@.len() && ((
                                        #[trigger] gpre.edge_map@[i]).source == v
                                            || gpre.edge_map@[i].dest == v);
                                    assert(g_prime.edge_map@[i] == gpre.edge_map@[i]);
                                }
                            }
                        }
                    },
                    _ => {},
                }
            }
            ei = ei + 1;
        }
        proof {
            assert(edges@.take(edges@.len() as int) =~= edges@);
        }
        g_prime
    }

    /// Initializes one Dijkstra instance with every vertex of the
    /// reweighted graph and runs it from `start`.
    #[verifier::rlimit(100)]
    fn run_engine(&self, g_prime: &DirectedGraph, start: usize) -> (d: Dijkstra)
        requires
            g_prime.wf(),
            weights_bounded(*g_prime, MAX_DIJKSTRA_WEIGHT),
            forall|v: usize| #[trigger] g_prime.has_vertex(v) ==> v < self.num_vertex + 1,
            self.num_vertex < MAX_TABLE_WIDTH,
            start < self.num_vertex + 1,
        ensures
            engine_run_ok(*g_prime, start, d),
            d.pool_len() <= self.num_vertex + 1,
    {
        let ghost gp = *g_prime;
        let mut d = Dijkstra::new(start);
        let vs = g_prime.vertex_iter();
        let mut k: usize = 0;
        while k < vs.len()
            invariant
                g_prime.wf(),
                gp == *g_prime,
                forall|v: usize| #[trigger] g_prime.has_vertex(v) ==> v < self.num_vertex + 1,
                self.num_vertex < MAX_TABLE_WIDTH,
                vs@ == g_prime.vkeys(),
                k <= vs@.len(),
                d.is_initialized(),
                d.starting_vertex == start,
                d.pool_len() <= self.num_vertex + 1,
                forall|v: int|
                    0 <= v < d.pool_len() ==> (#[trigger] d.in_queue(v) <==> exists|k2: int|
                        0 <= k2 < k && vs@[k2] == v),
                forall|k2: int| 0 <= k2 < k ==> (#[trigger] vs@[k2] as int) < d.pool_len(),
            decreases vs@.len() - k,
        {
            let v = vs[k];
            proof {
                assert(g_prime.vkeys()[k as int] == v);
                assert(g_prime.vkeys().contains(v));
                assert(g_prime.has_vertex(v));
                assert(v < self.num_vertex + 1);
            }
            let ghost dpre = d;
            d.initialize_vertex(v);
            proof {
                assert forall|u: int|
                    0 <= u < d.pool_len() implies (#[trigger] d.in_queue(u) <==> exists|k2: int|
                    0 <= k2 < k + 1 && vs@[k2] == u) by {
                    assert(d.in_queue(u) <==> (dpre.in_queue(u) || u == v));
                    if d.in_queue(u) {
                        if u == v {
                            assert(vs@[k as int] == u);
                        } else {
                            assert(dpre.in_queue(u));
                            assert(u < dpre.pool_len());
                            let k2 = choose|k2: int| 0 <= k2 < k && vs@[k2] == u;
                            assert(vs@[k2] == u);
                        }
                    } else {
                        if exists|k2: int| 0 <= k2 < k + 1 && vs@[k2] == u {
                            let k2 = choose|k2: int| 0 <= k2 < k + 1 && vs@[k2] == u;
                            if k2 < k {
                                assert(u < dpre.pool_len());
                                assert(dpre.in_queue(u));
                            } else {
                                assert(u == v);
                            }
                            assert(false);
                        }
                    }
                }
            }
            k = k + 1;
        }
        let ghost dinit = d;
        proof {
            assert forall|v: usize|
                #[trigger] gp.has_vertex(v) implies (v as int) < dinit.pool_len()
                && dinit.in_queue(v as int) by {
                assert(gp.vkeys().contains(v));
                let k2 = choose|k2: int| 0 <= k2 < vs@.len() && vs@[k2] == v;
                assert(vs@[k2] == v);
            }
            assert forall|v: int|
                0 <= v < dinit.pool_len() && #[trigger] dinit.in_queue(v) implies gp.has_vertex(
                v as usize,
            ) by {
                let k2 = choose|k2: int| 0 <= k2 < vs@.len() && vs@[k2] == v;
                assert(gp.vkeys().contains(vs@[k2]));
            }
        }
        d.calculate_shortest_paths(g_prime, start);
        proof {
            if gp.has_vertex(start) {
                assert(dinit.in_queue(start as int));
            } else {
                if (start as int) < dinit.pool_len() && dinit.in_queue(start as int) {
                    assert(gp.has_vertex(start));
                }
                assert(!dinit.in_queue(start as int));
                assert(d == dinit);
            }
        }
        d
    }

    /// Runs one Dijkstra instance on the reweighted graph from `start` and
    /// returns its per-destination records with the reweighting undone,
    /// together with the engine state that produced them.
    #[verifier::rlimit(100)]
    fn run_source(&self, g_prime: &DirectedGraph, adjustments: &Vec<MinMax<i64>>, start: usize)
        -> (out: (Vec<ShortestPathInfo>, Ghost<Dijkstra>))
        requires
            g_prime.wf(),
            weights_bounded(*g_prime, MAX_DIJKSTRA_WEIGHT),
            forall|v: usize| #[trigger] g_prime.has_vertex(v) ==> v < self.num_vertex + 1,
            self.num_vertex < MAX_TABLE_WIDTH,
            adjustments@.len() == self.num_vertex + 1,
            forall|j: int|
                0 <= j < adjustments@.len() && #[trigger] adjustments@[j] is Value ==> -100000
                    * 100000000 <= adjustments@[j]->Value_0 <= 100000 * 100000000,
            start < self.num_vertex + 1,
        ensures
            source_run_ok(*g_prime, adjustments@, start, out.1@, out.0@),
    {
        let ghost gp = *g_prime;
        let d = self.run_engine(g_prime, start);
        let results = d.get_shortest_paths();
        let mut out: Vec<ShortestPathInfo> = Vec::new();
        let mut ri: usize = 0;
        while ri < results.len()
            invariant
                d.inv(*g_prime),
                gp == *g_prime,
                adjustments@.len() == self.num_vertex + 1,
                forall|j: int|
                    0 <= j < adjustments@.len() && #[trigger] adjustments@[j] is Value ==> -100000
                        * 100000000 <= adjustments@[j]->Value_0 <= 100000 * 100000000,
                start < self.num_vertex + 1,
                d.pool_len() <= self.num_vertex + 1,
                d.starting_vertex == start,
                ri <= results@.len(),
                forall|j: int, k2: int|
                    0 <= j < k2 < results@.len() ==> results@[j].dest < results@[k2].dest,
                crate::dijkstra::pred_ranked(d),
                forall|j: int|
                    0 <= j < results@.len() ==> {
                        let info = #[trigger] results@[j];
                        &&& d.processed(info.dest as int)
                        &&& info.source == start
                        &&& mm_int(info.distance) == d.score(info.dest as int)
                        &&& info.path_len == info.path@.len()
                        &&& !info.has_negative_cycle
                        &&& crate::dijkstra::opt_chain_ok(
                            d.predecessor@,
                            start,
                            info.dest,
                            d.pool_len(),
                            info.path@,
                        )
                        &&& info.path@.len() <= d.pool_len() + 1
                        &&& (info.path@[0] == start || (info.path@[0] < d.predecessor@.len()
                            && d.predecessor@[info.path@[0] as int] is None))
                    },
                forall|v: int|
                    0 <= v < d.pool_len() && #[trigger] d.processed(v) ==> exists|j: int|
                        0 <= j < results@.len() && (#[trigger] results@[j]).dest == v,
                out@.len() == ri,
                forall|j: int|
                    0 <= j < out@.len() ==> record_ok(
                        gp,
                        adjustments@,
                        start,
                        d,
                        #[trigger] out@[j],
                    ),
                forall|j: int, k2: int| 0 <= j < k2 < out@.len() ==> out@[j].dest < out@[k2].dest,
                forall|j: int| 0 <= j < out@.len() ==> (#[trigger] out@[j]).dest == results@[j].dest,
            decreases results@.len() - ri,
        {
            let info = &results[ri];
            proof {
                assert(d.processed(info.dest as int));
                assert(info.dest < d.pool_len());
                if d.score(info.dest as int) is Value {
                    lemma_pool_scores_bounded(d, info.dest as int);
                }
            }
            let sa = adjustments[start];
            let da = adjustments[info.dest];
            let newdist: MinMax<i64> = match (sa, da) {
                (MinMax::Value(_), MinMax::Value(_)) => {
                    proof {
                        assert(d.score(info.dest as int) is Value || d.score(
                            info.dest as int,
                        ) is Max);
                    }
                    info.distance.minus(sa).plus(da)
                },
                _ => info.distance,
            };
            let mut path2: Vec<usize> = Vec::new();
            let mut pi: usize = 0;
            while pi < info.path.len()
                invariant
                    pi <= info.path@.len(),
                    path2@ == info.path@.take(pi as int),
                decreases info.path@.len() - pi,
            {
                path2.push(info.path[pi]);
                proof {
                    assert(path2@ =~= info.path@.take(pi + 1 as int));
                }
                pi = pi + 1;
            }
            proof {
                assert(path2@ =~= info.path@);
                if d.score(info.dest as int) is Value {
                    crate::dijkstra::lemma_reachable_path_starts_at_source(
                        d,
                        gp,
                        info.dest,
                        info.path@,
                    );
                }
            }
            let path_len = path2.len();
            out.push(
                ShortestPathInfo {
                    source: info.source,
                    dest: info.dest,
                    distance: newdist,
                    path: path2,
                    path_len,
                    has_negative_cycle: false,
                },
            );
            ri = ri + 1;
        }
        proof {
            assert forall|v: int|
                0 <= v < d.pool_len() && #[trigger] d.processed(v) implies exists|j: int|
                0 <= j < out@.len() && (#[trigger] out@[j]).dest == v by {
                let j = choose|j: int| 0 <= j < results@.len() && (#[trigger] results@[j]).dest == v;
                assert(out@[j].dest == v);
            }
        }
        (out, Ghost(d))
    }

    /// Finds all shortest paths from every source vertex to every other
    /// vertex.  The negative-cycle verdict comes from Bellman-Ford over the
    /// super-source; on detection no results are produced at all.
    pub fn calculate_shortest_paths(&mut self)
        requires
            old(self).graph.wf(),
            old(self).graph.ekeys().len() + 1 < usize::MAX,
            forall|i: int|
                0 <= i < old(self).graph.edge_map@.len() ==> (
                #[trigger] old(self).graph.edge_map@[i]).dest != 0 && old(
                    self,
                ).graph.incoming_ids(old(self).graph.edge_map@[i].dest).contains(
                    old(self).graph.edge_map@[i].edge_id,
                ),
            old(self).graph.has_vertex(0),
            old(self).num_vertex == old(self).graph.vkeys().len(),
            old(self).num_vertex < MAX_TABLE_WIDTH,
            ids_below(old(self).graph, (old(self).num_vertex + 1) as usize),
            weights_bounded(old(self).graph, MAX_EDGE_WEIGHT),
        ensures
            final(self).graph == old(self).graph,
            final(self).num_vertex == old(self).num_vertex,
            final(self).found_negative_cycle == johnson_negative_cycle(
                old(self).graph,
                old(self).num_vertex,
            ),
            final(self).found_negative_cycle ==> final(self).shortest_path_info@.len() == 0,
            !final(self).found_negative_cycle ==> final(self).shortest_path_info@.len()
                == old(self).num_vertex - 1 && (forall|i: int|
                0 <= i < final(self).shortest_path_info@.len() ==> (#[trigger] final(self).shortest_path_info@[i]).0 == i + 1) && exists|
                b: Bellman,
                h: Seq<MinMax<i64>>,
                gp: DirectedGraph,
                ds: Seq<Dijkstra>,
            |
                {
                    &&& #[trigger] b.computed(old(self).graph, 0)
                    &&& b.num_vertex == old(self).num_vertex + 1
                    &&& h.len() == old(self).num_vertex + 1
                    &&& forall|x: int|
                        0 <= x < h.len() ==> mm_int(#[trigger] h[x]) == b.table_row(
                            b.last_iteration as int,
                        )[x]
                    &&& #[trigger] reweighted_graph(old(self).graph, h, gp)
                    &&& crate::dijkstra::nonneg_weights(gp)
                    &&& #[trigger] ds.len() == old(self).num_vertex - 1
                    &&& forall|i: int|
                        0 <= i < ds.len() ==> source_run_ok(
                            gp,
                            h,
                            (i + 1) as usize,
                            #[trigger] ds[i],
                            final(self).shortest_path_info@[i].1@,
                        )
                },
    {
        let ghost g = old(self).graph;
        let ghost w = (old(self).num_vertex + 1) as nat;
        let mut adjustment_info = Bellman::new(self.num_vertex);
        self.found_negative_cycle = false;
        self.shortest_path_info = Vec::new();
        proof {
            assert(self.graph.vkeys().contains(0usize));
            assert(self.num_vertex >= 1);
        }
        adjustment_info.calculate_shortest_paths(&self.graph, 0);
        let adjustment_results = adjustment_info.get_shortest_path_distances();
        self.found_negative_cycle = adjustment_info.has_negative_cycle();
        proof {
            assert(adjustment_info.iterations == self.num_vertex + 1);
            assert(self.found_negative_cycle == johnson_negative_cycle(g, self.num_vertex));
            crate::bellman::lemma_row_bound(g, 0, w, adjustment_info.last_iteration as nat);
            assert forall|j: int|
                0 <= j < adjustment_results@.len() && #[trigger] adjustment_results@[j]
                is Value implies -100000 * 100000000 <= adjustment_results@[j]->Value_0 <= 100000
                * 100000000 by {
                assert(mm_int(adjustment_results@[j]) == adjustment_info.table_row(
                    adjustment_info.last_iteration as int,
                )[j]);
                assert(adjustment_info.table_row(adjustment_info.last_iteration as int)
                    == crate::bellman::bf_row(g, 0, w, adjustment_info.last_iteration as nat));
                assert((adjustment_info.last_iteration as int) * MAX_EDGE_WEIGHT <= 100000
                    * MAX_EDGE_WEIGHT) by (nonlinear_arith)
                    requires
                        0 <= adjustment_info.last_iteration as int <= 100000,
                        MAX_EDGE_WEIGHT > 0,
                ;
            }
        }
        if !self.found_negative_cycle {
            let g_prime = self.build_reweighted(&adjustment_results);
            proof {
                let klast = adjustment_info.last_iteration as nat;
                assert(adjustment_info.last_iteration >= 1);
                assert(crate::bellman::bf_row(g, 0, w, klast) == crate::bellman::bf_row(
                    g,
                    0,
                    w,
                    (klast - 1) as nat,
                )) by {
                    if adjustment_info.last_iteration < adjustment_info.iterations - 1 {
                        assert(crate::bellman::converged_at(
                            g,
                            0,
                            w,
                            adjustment_info.last_iteration as int,
                        ));
                    } else {
                        assert(!johnson_negative_cycle(g, self.num_vertex));
                        assert(crate::bellman::converged_at(g, 0, w, self.num_vertex as int));
                    }
                }
                assert forall|x: int|
                    0 <= x < adjustment_results@.len() implies mm_int(
                    #[trigger] adjustment_results@[x],
                ) == crate::bellman::bf_row(g, 0, w, klast)[x] by {
                    assert(mm_int(adjustment_results@[x]) == adjustment_info.table_row(
                        adjustment_info.last_iteration as int,
                    )[x]);
                }
                lemma_gp_nonneg(g, adjustment_results@, g_prime, w, klast);
            }
            let ghost bsnap = adjustment_info;
            let ghost hsnap = adjustment_results@;
            let ghost gpsnap = g_prime;
            let mut ds: Ghost<Seq<Dijkstra>> = Ghost(Seq::empty());
            let mut start: usize = 1;
            while start < self.num_vertex
                invariant
                    self.graph == old(self).graph,
                    self.num_vertex == old(self).num_vertex,
                    !self.found_negative_cycle,
                    self.found_negative_cycle == johnson_negative_cycle(g, self.num_vertex),
                    g == old(self).graph,
                    g_prime.wf(),
                    g_prime == gpsnap,
                    weights_bounded(g_prime, MAX_DIJKSTRA_WEIGHT),
                    forall|v: usize| #[trigger] g_prime.has_vertex(v) ==> v < self.num_vertex + 1,
                    self.num_vertex < MAX_TABLE_WIDTH,
                    adjustment_results@.len() == self.num_vertex + 1,
                    adjustment_results@ == hsnap,
                    forall|j: int|
                        0 <= j < adjustment_results@.len() && #[trigger] adjustment_results@[j]
                            is Value ==> -100000 * 100000000 <= adjustment_results@[j]->Value_0
                            <= 100000 * 100000000,
                    1 <= start <= self.num_vertex,
                    self.shortest_path_info@.len() == start - 1,
                    ds@.len() == start - 1,
                    forall|i: int|
                        0 <= i < self.shortest_path_info@.len() ==> (
                        #[trigger] self.shortest_path_info@[i]).0 == i + 1,
                    forall|i: int|
                        0 <= i < ds@.len() ==> source_run_ok(
                            gpsnap,
                            hsnap,
                            (i + 1) as usize,
                            #[trigger] ds@[i],
                            self.shortest_path_info@[i].1@,
                        ),
                decreases self.num_vertex + 1 - start,
            {
                let (results, dwit) = self.run_source(&g_prime, &adjustment_results, start);
                let ghost sp0 = self.shortest_path_info@;
                let ghost ds0 = ds@;
                self.shortest_path_info.push((start, results));
                proof {
                    ds@ = ds0.push(dwit@);
                }
                proof {
                    assert forall|i: int|
                        0 <= i < self.shortest_path_info@.len() implies (
                    #[trigger] self.shortest_path_info@[i]).0 == i + 1 by {
                        if i < sp0.len() {
                            assert(self.shortest_path_info@[i] == sp0[i]);
                        }
                    }
                    assert forall|i: int|
                        0 <= i < ds@.len() implies source_run_ok(
                        gpsnap,
                        hsnap,
                        (i + 1) as usize,
                        #[trigger] ds@[i],
                        self.shortest_path_info@[i].1@,
                    ) by {
                        if i < ds0.len() {
                            assert(ds@[i] == ds0[i]);
                            assert(self.shortest_path_info@[i] == sp0[i]);
                        } else {
                            assert(ds@[i] == dwit@);
                        }
                    }
                }
                start = start + 1;
            }
            proof {
                assert forall|x: int|
                    0 <= x < hsnap.len() implies mm_int(#[trigger] hsnap[x]) == bsnap.table_row(
                    bsnap.last_iteration as int,
                )[x] by {}
            }
        }
    }
}

/// A finalized score in a pool of at most `MAX_TABLE_WIDTH` vertices is
/// bounded by the pool-size worth of relaxations.
proof fn lemma_pool_scores_bounded(d: Dijkstra, v: int)
    requires
        d.wf(),
        exists|g: DirectedGraph| #[trigger] d.inv(g),
        0 <= v < d.pool_len(),
        d.processed(v),
        d.score(v) is Value,
    ensures
        -100000 * MAX_DIJKSTRA_WEIGHT <= d.score(v)->Value_0 <= 100000 * MAX_DIJKSTRA_WEIGHT,
{
    let g = choose|g: DirectedGraph| #[trigger] d.inv(g);
    crate::dijkstra::lemma_count_some_le_len(d.processed_vertex@);
    let pc = crate::dijkstra::count_some(d.processed_vertex@) as int;
    assert(-pc * MAX_DIJKSTRA_WEIGHT <= d.score(v)->Value_0 <= pc * MAX_DIJKSTRA_WEIGHT);
    assert(pc <= 100000);
    assert(pc * MAX_DIJKSTRA_WEIGHT <= 100000 * MAX_DIJKSTRA_WEIGHT) by (nonlinear_arith)
        requires
            0 <= pc <= 100000,
            MAX_DIJKSTRA_WEIGHT > 0,
    ;
}


impl Johnson {
    /// The single globally shortest entry of the stored result tables: its
    /// distance and path; `NA` and an empty path when no table is stored.
    pub fn shortest_shortest_path(&self) -> (r: (MinMax<i64>, Vec<usize>))
        ensures
            forall|i: int, j: int|
                0 <= i < self.shortest_path_info@.len() && 0 <= j
                    < self.shortest_path_info@[i].1@.len() ==> !mm_lt(
                    mm_int(#[trigger] self.shortest_path_info@[i].1@[j].distance),
                    mm_int(r.0),
                ),
            (r.0 == MinMax::<i64>::NA && r.1@.len() == 0) || exists|i: int, j: int|
                0 <= i < self.shortest_path_info@.len() && 0 <= j
                    < self.shortest_path_info@[i].1@.len() && mm_int(
                    #[trigger] self.shortest_path_info@[i].1@[j].distance,
                ) == mm_int(r.0) && self.shortest_path_info@[i].1@[j].path@ == r.1@,
    {
        let mut min_path_len: MinMax<i64> = MinMax::NA;
        let mut min_path: Vec<usize> = Vec::new();
        let mut i: usize = 0;
        while i < self.shortest_path_info.len()
            invariant
                i <= self.shortest_path_info@.len(),
                forall|a: int, b: int|
                    0 <= a < i && 0 <= b < self.shortest_path_info@[a].1@.len() ==> !mm_lt(
                        mm_int(#[trigger] self.shortest_path_info@[a].1@[b].distance),
                        mm_int(min_path_len),
                    ),
                (min_path_len == MinMax::<i64>::NA && min_path@.len() == 0) || exists|
                    a: int,
                    b: int,
                |
                    0 <= a < self.shortest_path_info@.len() && 0 <= b
                        < self.shortest_path_info@[a].1@.len() && mm_int(
                        #[trigger] self.shortest_path_info@[a].1@[b].distance,
                    ) == mm_int(min_path_len) && self.shortest_path_info@[a].1@[b].path@
                        == min_path@,
            decreases self.shortest_path_info@.len() - i,
        {
            let row = &self.shortest_path_info[i];
            let mut j: usize = 0;
            while j < row.1.len()
                invariant
                    i < self.shortest_path_info@.len(),
                    row == &self.shortest_path_info@[i as int],
                    j <= row.1@.len(),
                    forall|a: int, b: int|
                        0 <= a < i && 0 <= b < self.shortest_path_info@[a].1@.len() ==> !mm_lt(
                            mm_int(#[trigger] self.shortest_path_info@[a].1@[b].distance),
                            mm_int(min_path_len),
                        ),
                    forall|b: int|
                        0 <= b < j ==> !mm_lt(
                            mm_int(#[trigger] self.shortest_path_info@[i as int].1@[b].distance),
                            mm_int(min_path_len),
                        ),
                    (min_path_len == MinMax::<i64>::NA && min_path@.len() == 0) || exists|
                        a: int,
                        b: int,
                    |
                        0 <= a < self.shortest_path_info@.len() && 0 <= b
                            < self.shortest_path_info@[a].1@.len() && mm_int(
                            #[trigger] self.shortest_path_info@[a].1@[b].distance,
                        ) == mm_int(min_path_len) && self.shortest_path_info@[a].1@[b].path@
                            == min_path@,
                decreases row.1@.len() - j,
            {
                let info = &row.1[j];
                proof {
                    crate::bellman::lemma_mm_int_injective(info.distance, min_path_len);
                }
                if info.distance.lt(&min_path_len) {
                    min_path_len = info.distance;
                    let mut path2: Vec<usize> = Vec::new();
                    let mut pi: usize = 0;
                    while pi < info.path.len()
                        invariant
                            pi <= info.path@.len(),
                            path2@ == info.path@.take(pi as int),
                        decreases info.path@.len() - pi,
                    {
                        path2.push(info.path[pi]);
                        proof {
                            assert(path2@ =~= info.path@.take(pi + 1 as int));
                        }
                        pi = pi + 1;
                    }
                    proof {
                        assert(path2@ =~= info.path@);
                    }
                    min_path = path2;
                    proof {
                        assert(mm_int(self.shortest_path_info@[i as int].1@[j as int].distance)
                            == mm_int(min_path_len));
                    }
                }
                j = j + 1;
            }
            i = i + 1;
        }
        (min_path_len, min_path)
    }

    /// Runs the whole Johnson pipeline but keeps only the single globally
    /// shortest path, pruning each per-source Dijkstra scan with the best
    /// bound so far.  Negative-cycle detection is terminal: `None`.
    #[verifier::rlimit(100)]
    #[verifier::spinoff_prover]
    pub fn find_shortest_shortest_path(&mut self) -> (r: Option<ShortestPathInfo>)
        requires
            old(self).graph.wf(),
            old(self).graph.ekeys().len() + 1 < usize::MAX,
            forall|i: int|
                0 <= i < old(self).graph.edge_map@.len() ==> (
                #[trigger] old(self).graph.edge_map@[i]).dest != 0 && old(
                    self,
                ).graph.incoming_ids(old(self).graph.edge_map@[i].dest).contains(
                    old(self).graph.edge_map@[i].edge_id,
                ),
            old(self).graph.has_vertex(0),
            old(self).num_vertex == old(self).graph.vkeys().len(),
            old(self).num_vertex < MAX_TABLE_WIDTH,
            ids_below(old(self).graph, (old(self).num_vertex + 1) as usize),
            weights_bounded(old(self).graph, MAX_EDGE_WEIGHT),
        ensures
            final(self).graph == old(self).graph,
            final(self).num_vertex == old(self).num_vertex,
            final(self).found_negative_cycle == johnson_negative_cycle(
                old(self).graph,
                old(self).num_vertex,
            ),
            final(self).found_negative_cycle ==> r is None,
            r matches Some(info) ==> !info.has_negative_cycle && info.source != info.dest
                && info.path_len == info.path@.len(),
            !final(self).found_negative_cycle ==> exists|
                b: Bellman,
                h: Seq<MinMax<i64>>,
                hp: Seq<MinMax<i64>>,
                gp: DirectedGraph,
                ds: Seq<Dijkstra>,
            |
                {
                    &&& #[trigger] b.computed(old(self).graph, 0)
                    &&& b.num_vertex == old(self).num_vertex + 1
                    &&& h.len() == old(self).num_vertex + 1
                    &&& forall|x: int|
                        0 <= x < h.len() ==> mm_int(#[trigger] h[x]) == b.table_row(
                            b.last_iteration as int,
                        )[x]
                    &&& #[trigger] reweighted_graph(old(self).graph, h, gp)
                    &&& crate::dijkstra::nonneg_weights(gp)
                    &&& #[trigger] hp.len() == h.len()
                    &&& forall|x: int| 0 <= x < h.len() && h[x] is Value ==> #[trigger] hp[x] == h[x]
                    &&& #[trigger] ds.len() == old(self).num_vertex - 1
                    &&& forall|i: int|
                        0 <= i < ds.len() ==> engine_run_ok(gp, (i + 1) as usize, #[trigger] ds[i])
                    &&& (r is None ==> forall|i: int, v: int|
                        0 <= i < ds.len() && 0 <= v < ds[i].pool_len() && #[trigger] ds[i].processed(
                            v,
                        ) && v != i + 1 ==> !mm_lt(
                            crate::dijkstra::adjusted_distance(ds[i], hp, v),
                            MinMax::Max,
                        ))
                    &&& (r matches Some(info) ==> {
                        &&& 1 <= info.source
                        &&& (info.source - 1) < ds.len()
                        &&& (info.dest as int) < ds[info.source - 1].pool_len()
                        &&& ds[info.source - 1].processed(info.dest as int)
                        &&& crate::dijkstra::opt_chain_ok(
                            ds[info.source - 1].predecessor@,
                            info.source,
                            info.dest,
                            ds[info.source - 1].pool_len(),
                            info.path@,
                        )
                        &&& mm_int(info.distance) == crate::dijkstra::adjusted_distance(
                            ds[info.source - 1],
                            hp,
                            info.dest as int,
                        )
                        &&& (crate::dijkstra::mm_int_is_value(info.distance)
                            ==> info.path@.len() >= 1 && info.path@[0] == info.source)
                        &&& forall|i: int, v: int|
                            0 <= i < ds.len() && 0 <= v < ds[i].pool_len()
                                && #[trigger] ds[i].processed(v) && v != i + 1 ==> !mm_lt(
                                crate::dijkstra::adjusted_distance(ds[i], hp, v),
                                mm_int(info.distance),
                            )
                    })
                },
    {
        let ghost g = old(self).graph;
        let ghost w = (old(self).num_vertex + 1) as nat;
        let mut adjustment_info = Bellman::new(self.num_vertex);
        self.found_negative_cycle = false;
        proof {
            assert(self.graph.vkeys().contains(0usize));
            assert(self.num_vertex >= 1);
        }
        adjustment_info.calculate_shortest_paths(&self.graph, 0);
        let adjustment_results = adjustment_info.get_shortest_path_distances();
        self.found_negative_cycle = adjustment_info.has_negative_cycle();
        proof {
            assert(self.found_negative_cycle == johnson_negative_cycle(g, self.num_vertex));
            crate::bellman::lemma_row_bound(g, 0, w, adjustment_info.last_iteration as nat);
            assert forall|j: int|
                0 <= j < adjustment_results@.len() && #[trigger] adjustment_results@[j]
                is Value implies -100000 * 100000000 <= adjustment_results@[j]->Value_0 <= 100000
                * 100000000 by {
                assert(mm_int(adjustment_results@[j]) == adjustment_info.table_row(
                    adjustment_info.last_iteration as int,
                )[j]);
                assert((adjustment_info.last_iteration as int) * MAX_EDGE_WEIGHT <= 100000
                    * MAX_EDGE_WEIGHT) by (nonlinear_arith)
                    requires
                        0 <= adjustment_info.last_iteration as int <= 100000,
                        MAX_EDGE_WEIGHT > 0,
                ;
            }
        }
        if self.found_negative_cycle {
            return None;
        }
        // Slots of ids that hold no vertex never feed the pruning scan; a
        // zero placeholder keeps the potential table total for it.
        let mut patched: Vec<MinMax<i64>> = Vec::new();
        let mut fi: usize = 0;
        while fi < adjustment_results.len()
            invariant
                fi <= adjustment_results@.len(),
                patched@.len() == fi,
                forall|j: int|
                    0 <= j < adjustment_results@.len() && #[trigger] adjustment_results@[j]
                        is Value ==> -100000 * 100000000 <= adjustment_results@[j]->Value_0
                        <= 100000 * 100000000,
                forall|j: int|
                    0 <= j < fi ==> #[trigger] patched@[j] is Value && -100000 * 100000000
                        <= patched@[j]->Value_0 <= 100000 * 100000000,
                forall|j: int|
                    0 <= j < fi && adjustment_results@[j] is Value ==> #[trigger] patched@[j]
                        == adjustment_results@[j],
            decreases adjustment_results@.len() - fi,
        {
            match adjustment_results[fi] {
                MinMax::Value(x) => {
                    patched.push(MinMax::Value(x));
                },
                _ => {
                    patched.push(MinMax::Value(0));
                },
            }
            fi = fi + 1;
        }
        let g_prime = self.build_reweighted(&adjustment_results);
        proof {
            let klast = adjustment_info.last_iteration as nat;
            assert(adjustment_info.last_iteration >= 1);
            assert(crate::bellman::bf_row(g, 0, w, klast) == crate::bellman::bf_row(
                g,
                0,
                w,
                (klast - 1) as nat,
            )) by {
                if adjustment_info.last_iteration < adjustment_info.iterations - 1 {
                    assert(crate::bellman::converged_at(
                        g,
                        0,
                        w,
                        adjustment_info.last_iteration as int,
                    ));
                } else {
                    assert(!johnson_negative_cycle(g, self.num_vertex));
                    assert(crate::bellman::converged_at(g, 0, w, self.num_vertex as int));
                }
            }
            assert forall|x: int|
                0 <= x < adjustment_results@.len() implies mm_int(
                #[trigger] adjustment_results@[x],
            ) == crate::bellman::bf_row(g, 0, w, klast)[x] by {
                assert(mm_int(adjustment_results@[x]) == adjustment_info.table_row(
                    adjustment_info.last_iteration as int,
                )[x]);
            }
            lemma_gp_nonneg(g, adjustment_results@, g_prime, w, klast);
        }
        let ghost bsnap = adjustment_info;
        let ghost hsnap = adjustment_results@;
        let ghost hpsnap = patched@;
        let ghost gpsnap = g_prime;
        let mut ds: Ghost<Seq<Dijkstra>> = Ghost(Seq::empty());
        let mut shortest_distance: MinMax<i64> = MinMax::Max;
        let mut shortest_path_info: Option<ShortestPathInfo> = None;
        let mut start: usize = 1;
        while start < self.num_vertex
            invariant
                self.graph == old(self).graph,
                self.num_vertex == old(self).num_vertex,
                !self.found_negative_cycle,
                self.found_negative_cycle == johnson_negative_cycle(g, self.num_vertex),
                g == old(self).graph,
                g_prime.wf(),
                g_prime == gpsnap,
                weights_bounded(g_prime, MAX_DIJKSTRA_WEIGHT),
                forall|v: usize| #[trigger] g_prime.has_vertex(v) ==> v < self.num_vertex + 1,
                self.num_vertex < MAX_TABLE_WIDTH,
                patched@ == hpsnap,
                patched@.len() == self.num_vertex + 1,
                forall|j: int|
                    0 <= j < patched@.len() ==> #[trigger] patched@[j] is Value && -100000
                        * 100000000 <= patched@[j]->Value_0 <= 100000 * 100000000,
                1 <= start <= self.num_vertex,
                ds@.len() == start - 1,
                forall|i: int|
                    0 <= i < ds@.len() ==> engine_run_ok(gpsnap, (i + 1) as usize, #[trigger] ds@[i])
                        && ds@[i].pool_len() <= self.num_vertex + 1,
                match shortest_path_info {
                    Option::None => mm_int(shortest_distance) == MinMax::<int>::Max && forall|
                        i: int,
                        v: int,
                    |
                        0 <= i < ds@.len() && 0 <= v < ds@[i].pool_len()
                            && #[trigger] ds@[i].processed(v) && v != i + 1 ==> !mm_lt(
                            crate::dijkstra::adjusted_distance(ds@[i], hpsnap, v),
                            MinMax::Max,
                        ),
                    Option::Some(info) => {
                        &&& !info.has_negative_cycle
                        &&& info.source != info.dest
                        &&& info.path_len == info.path@.len()
                        &&& mm_int(shortest_distance) == mm_int(info.distance)
                        &&& 1 <= info.source
                        &&& (info.source - 1) < ds@.len()
                        &&& (info.dest as int) < ds@[info.source - 1].pool_len()
                        &&& ds@[info.source - 1].processed(info.dest as int)
                        &&& crate::dijkstra::opt_chain_ok(
                            ds@[info.source - 1].predecessor@,
                            info.source,
                            info.dest,
                            ds@[info.source - 1].pool_len(),
                            info.path@,
                        )
                        &&& mm_int(info.distance) == crate::dijkstra::adjusted_distance(
                            ds@[info.source - 1],
                            hpsnap,
                            info.dest as int,
                        )
                        &&& (crate::dijkstra::mm_int_is_value(info.distance)
                            ==> info.path@.len() >= 1 && info.path@[0] == info.source)
                        &&& forall|i: int, v: int|
                            0 <= i < ds@.len() && 0 <= v < ds@[i].pool_len()
                                && #[trigger] ds@[i].processed(v) && v != i + 1 ==> !mm_lt(
                                crate::dijkstra::adjusted_distance(ds@[i], hpsnap, v),
                                mm_int(info.distance),
                            )
                    },
                },
            decreases self.num_vertex - start,
        {
            let d = self.run_engine(&g_prime, start);
            let ghost ds0 = ds@;
            let ghost old_bound = mm_int(shortest_distance);
            proof {
                assert forall|u: int|
                    0 <= u < d.pool_len() && #[trigger] d.processed(u) && d.score(u)
                    is Value implies -100000 * MAX_DIJKSTRA_WEIGHT <= d.score(u)->Value_0 <= 100000
                    * MAX_DIJKSTRA_WEIGHT by {
                    lemma_pool_scores_bounded(d, u);
                }
            }
            let found = d.get_shortest_shortest_path(shortest_distance, &patched);
            proof {
                ds@ = ds0.push(d);
            }
            match found {
                Option::Some(new_info) => {
                    proof {
                        crate::bellman::lemma_mm_int_injective(new_info.distance, shortest_distance);
                    }
                    if new_info.distance.lt(&shortest_distance) {
                        shortest_distance = new_info.distance;
                        shortest_path_info = Some(new_info);
                        proof {
                            if crate::dijkstra::mm_int_is_value(new_info.distance) {
                                assert(d.score(new_info.dest as int) is Value);
                                crate::dijkstra::lemma_reachable_path_starts_at_source(
                                    d,
                                    gpsnap,
                                    new_info.dest,
                                    new_info.path@,
                                );
                            }
                            assert forall|i: int, v: int|
                                0 <= i < ds@.len() && 0 <= v < ds@[i].pool_len()
                                    && #[trigger] ds@[i].processed(v) && v != i + 1 implies !mm_lt(
                                crate::dijkstra::adjusted_distance(ds@[i], hpsnap, v),
                                mm_int(new_info.distance),
                            ) by {
                                if i < ds0.len() {
                                    assert(ds@[i] == ds0[i]);
                                    assert(!mm_lt(
                                        crate::dijkstra::adjusted_distance(ds0[i], hpsnap, v),
                                        old_bound,
                                    ));
                                    if mm_lt(
                                        crate::dijkstra::adjusted_distance(ds0[i], hpsnap, v),
                                        mm_int(new_info.distance),
                                    ) {
                                        crate::bellman::lemma_mm_lt_trans(
                                            crate::dijkstra::adjusted_distance(ds0[i], hpsnap, v),
                                            mm_int(new_info.distance),
                                            old_bound,
                                        );
                                    }
                                } else {
                                    assert(ds@[i] == d);
                                    assert(i + 1 == start);
                                }
                            }
                        }
                    }
                },
                Option::None => {
                    proof {
                        assert forall|i: int, v: int|
                            0 <= i < ds@.len() && 0 <= v < ds@[i].pool_len()
                                && #[trigger] ds@[i].processed(v) && v != i + 1 implies !mm_lt(
                            crate::dijkstra::adjusted_distance(ds@[i], hpsnap, v),
                            old_bound,
                        ) by {
                            if i < ds0.len() {
                                assert(ds@[i] == ds0[i]);
                            } else {
                                assert(ds@[i] == d);
                                assert(i + 1 == start);
                            }
                        }
                    }
                },
            }
            start = start + 1;
        }
        proof {
            assert forall|x: int|
                0 <= x < hsnap.len() implies mm_int(#[trigger] hsnap[x]) == bsnap.table_row(
                bsnap.last_iteration as int,
            )[x] by {}
            assert(hpsnap.len() == hsnap.len());
        }
        shortest_path_info
    }
}

} // verus!
