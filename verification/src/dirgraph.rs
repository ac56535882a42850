//! The graph store: a directed graph with monotonically assigned edge ids,
//! per-vertex incoming/outgoing edge-id sets, and deterministic ascending-id
//! iteration.
//!
//! Vertices and edges are kept in vectors sorted strictly by id, which gives
//! the ascending-id iteration order the algorithms rely on.  Vertex id 0 is
//! reserved for the synthetic super-source; ordinary edge definition rejects
//! it.

use vstd::prelude::*;

verus! {

/// A sequence of ids in strictly ascending order (sorted and duplicate-free).
pub open spec fn strictly_sorted(s: Seq<usize>) -> bool {
    forall|i: int, j: int| 0 <= i < j < s.len() ==> s[i] < s[j]
}

/// A directed edge: unique id, endpoints, signed weight.
#[derive(Clone, Copy, Debug, PartialEq, Eq, Structural)]
pub struct Edge {
    pub edge_id: usize,
    pub source: usize,
    pub dest: usize,
    pub weight: i64,
}

impl Edge {
    pub fn new(new_edge_id: usize, source_vertex_id: usize, dest_vertex_id: usize, weight: i64)
        -> (e: Edge)
        ensures
            e == (Edge {
                edge_id: new_edge_id,
                source: source_vertex_id,
                dest: dest_vertex_id,
                weight: weight,
            }),
    {
        Edge { edge_id: new_edge_id, source: source_vertex_id, dest: dest_vertex_id, weight }
    }

    /// Returns the starting vertex of the edge.
    pub fn source(&self) -> (r: usize)
        ensures
            r == self.source,
    {
        self.source
    }

    /// Returns the terminating vertex of the edge.
    pub fn dest(&self) -> (r: usize)
        ensures
            r == self.dest,
    {
        self.dest
    }

    /// Returns the weight of the edge.
    pub fn weight(&self) -> (r: i64)
        ensures
            r == self.weight,
    {
        self.weight
    }
}

/// A vertex: its id and the ids of its incoming and outgoing edges.
///
/// The edge-id sets are kept sorted ascending, so an edge's weight can change
/// without touching vertex data and iteration stays deterministic.
#[derive(Clone, Debug)]
pub struct Vertex {
    pub vertex_id: usize,
    pub incoming: Vec<usize>,
    pub outgoing: Vec<usize>,
}

impl Vertex {
    /// Both adjacency sets are strictly sorted.
    pub open spec fn wf(self) -> bool {
        strictly_sorted(self.incoming@) && strictly_sorted(self.outgoing@)
    }

    pub fn new(id: usize) -> (v: Vertex)
        ensures
            v.vertex_id == id,
            v.incoming@.len() == 0,
            v.outgoing@.len() == 0,
            v.wf(),
    {
        Vertex { vertex_id: id, incoming: Vec::new(), outgoing: Vec::new() }
    }

    pub fn id(&self) -> (r: usize)
        ensures
            r == self.vertex_id,
    {
        self.vertex_id
    }

    /// Adds an outgoing edge id; a duplicate leaves the set unchanged.
    pub fn add_outgoing(&mut self, edge_id: usize)
        requires
            old(self).wf(),
        ensures
            final(self).wf(),
            final(self).vertex_id == old(self).vertex_id,
            final(self).incoming == old(self).incoming,
            forall|e: usize|
                final(self).outgoing@.contains(e) <==> (old(self).outgoing@.contains(e) || e
                    == edge_id),
            old(self).outgoing@.contains(edge_id) ==> final(self).outgoing == old(self).outgoing,
            !old(self).outgoing@.contains(edge_id) ==> final(self).outgoing@.len() == old(self).outgoing@.len() + 1,
    {
        sorted_insert(&mut self.outgoing, edge_id);
    }

    /// Removes an outgoing edge id; an absent id leaves the set unchanged.
    pub fn delete_outgoing(&mut self, edge_id: usize)
        requires
            old(self).wf(),
        ensures
            final(self).wf(),
            final(self).vertex_id == old(self).vertex_id,
            final(self).incoming == old(self).incoming,
            forall|e: usize|
                final(self).outgoing@.contains(e) <==> (old(self).outgoing@.contains(e) && e
                    != edge_id),
            !old(self).outgoing@.contains(edge_id) ==> final(self).outgoing == old(self).outgoing,
    {
        sorted_remove(&mut self.outgoing, edge_id);
    }

    /// Adds an incoming edge id; a duplicate leaves the set unchanged.
    pub fn add_incoming(&mut self, edge_id: usize)
        requires
            old(self).wf(),
        ensures
            final(self).wf(),
            final(self).vertex_id == old(self).vertex_id,
            final(self).outgoing == old(self).outgoing,
            forall|e: usize|
                final(self).incoming@.contains(e) <==> (old(self).incoming@.contains(e) || e
                    == edge_id),
            old(self).incoming@.contains(edge_id) ==> final(self).incoming == old(self).incoming,
            !old(self).incoming@.contains(edge_id) ==> final(self).incoming@.len() == old(self).incoming@.len() + 1,
    {
        sorted_insert(&mut self.incoming, edge_id);
    }

    /// Removes an incoming edge id; an absent id leaves the set unchanged.
    pub fn delete_incoming(&mut self, edge_id: usize)
        requires
            old(self).wf(),
        ensures
            final(self).wf(),
            final(self).vertex_id == old(self).vertex_id,
            final(self).outgoing == old(self).outgoing,
            forall|e: usize|
                final(self).incoming@.contains(e) <==> (old(self).incoming@.contains(e) && e
                    != edge_id),
            !old(self).incoming@.contains(edge_id) ==> final(self).incoming == old(self).incoming,
    {
        sorted_remove(&mut self.incoming, edge_id);
    }

    /// Gets a vector of the outgoing edge ids, ascending.
    pub fn get_outgoing_edges(&self) -> (r: Vec<usize>)
        ensures
            r@ == self.outgoing@,
    {
        let mut r: Vec<usize> = Vec::new();
        let mut i: usize = 0;
        while i < self.outgoing.len()
            invariant
                i <= self.outgoing@.len(),
                r@ == self.outgoing@.take(i as int),
            decreases self.outgoing@.len() - i,
        {
            r.push(self.outgoing[i]);
            proof {
                assert(r@ =~= self.outgoing@.take(i + 1 as int));
            }
            i = i + 1;
        }
        proof {
            assert(r@ =~= self.outgoing@);
        }
        r
    }

    /// Gets a vector of the incoming edge ids, ascending.
    pub fn get_incoming_edges(&self) -> (r: Vec<usize>)
        ensures
            r@ == self.incoming@,
    {
        let mut r: Vec<usize> = Vec::new();
        let mut i: usize = 0;
        while i < self.incoming.len()
            invariant
                i <= self.incoming@.len(),
                r@ == self.incoming@.take(i as int),
            decreases self.incoming@.len() - i,
        {
            r.push(self.incoming[i]);
            proof {
                assert(r@ =~= self.incoming@.take(i + 1 as int));
            }
            i = i + 1;
        }
        proof {
            assert(r@ =~= self.incoming@);
        }
        r
    }
}

/// Inserts an id into a strictly sorted vector, keeping it sorted; a
/// duplicate is refused.
fn sorted_insert(v: &mut Vec<usize>, x: usize) -> (added: bool)
    requires
        strictly_sorted(old(v)@),
    ensures
        strictly_sorted(final(v)@),
        added == !old(v)@.contains(x),
        forall|e: usize| final(v)@.contains(e) <==> (old(v)@.contains(e) || e == x),
        added ==> final(v)@.len() == old(v)@.len() + 1,
        !added ==> *final(v) == *old(v),
    {
    let ghost v0 = v@;
    let mut i: usize = 0;
    while i < v.len() && v[i] < x
        invariant
            v@ == v0,
            i <= v0.len(),
            forall|k: int| 0 <= k < i ==> v0[k] < x,
            strictly_sorted(v0),
        decreases v0.len() - i,
    {
        i = i + 1;
    }
    if i < v.len() && v[i] == x {
        proof {
            assert(v0.contains(x));
        }
        return false;
    }
    proof {
        assert forall|k: int| 0 <= k < v0.len() implies v0[k] != x by {
            if k < i {
            } else {
                assert(v0[i as int] <= v0[k]);
            }
        }
        assert(!v0.contains(x));
    }
    v.insert(i, x);
    proof {
        let v1 = v@;
        assert(v1 == v0.insert(i as int, x));
        assert forall|a: int, b: int| 0 <= a < b < v1.len() implies v1[a] < v1[b] by {
            assert(v1[a] == if a < i { v0[a] } else if a == i { x } else { v0[a - 1] });
            assert(v1[b] == if b < i { v0[b] } else if b == i { x } else { v0[b - 1] });
            if b == i {
                assert(v0[a] < x);
            } else if a == i {
                assert(v0[b - 1] >= v0[i as int]) by {
                    if b - 1 > i {
                        assert(v0[i as int] < v0[b - 1]);
                    }
                }
                assert(x < v0[i as int]);
            }
        }
        assert forall|e: usize| v1.contains(e) implies (v0.contains(e) || e == x) by {
            let k = choose|k: int| 0 <= k < v1.len() && v1[k] == e;
            if k < i {
                assert(v0[k] == e);
            } else if k > i {
                assert(v0[k - 1] == e);
            }
        }
        assert forall|e: usize| v0.contains(e) implies v1.contains(e) by {
            let k = choose|k: int| 0 <= k < v0.len() && v0[k] == e;
            if k < i {
                assert(v1[k] == e);
            } else {
                assert(v1[k + 1] == e);
            }
        }
        assert(v1.contains(x)) by {
            assert(v1[i as int] == x);
        }
    }
    true
}

/// Removes an id from a strictly sorted vector; an absent id is a no-op.
fn sorted_remove(v: &mut Vec<usize>, x: usize) -> (removed: bool)
    requires
        strictly_sorted(old(v)@),
    ensures
        strictly_sorted(final(v)@),
        removed == old(v)@.contains(x),
        forall|e: usize| final(v)@.contains(e) <==> (old(v)@.contains(e) && e != x),
        removed ==> final(v)@.len() + 1 == old(v)@.len(),
        !removed ==> *final(v) == *old(v),
    {
    let ghost v0 = v@;
    let mut i: usize = 0;
    while i < v.len() && v[i] != x
        invariant
            v@ == v0,
            i <= v0.len(),
            forall|k: int| 0 <= k < i ==> v0[k] != x,
            strictly_sorted(v0),
        decreases v0.len() - i,
    {
        i = i + 1;
    }
    if i == v.len() {
        proof {
            assert(!v0.contains(x));
        }
        return false;
    }
    proof {
        assert(v0[i as int] == x);
        assert(v0.contains(x));
    }
    v.remove(i);
    proof {
        let v1 = v@;
        assert(v1 == v0.remove(i as int));
        assert forall|a: int, b: int| 0 <= a < b < v1.len() implies v1[a] < v1[b] by {
            assert(v1[a] == if a < i { v0[a] } else { v0[a + 1] });
            assert(v1[b] == if b < i { v0[b] } else { v0[b + 1] });
        }
        assert forall|e: usize| v1.contains(e) implies (v0.contains(e) && e != x) by {
            let k = choose|k: int| 0 <= k < v1.len() && v1[k] == e;
            if k < i {
                assert(v0[k] == e);
                assert(v0[k] != x);
            } else {
                assert(v0[k + 1] == e);
                assert(v0[i as int] < v0[k + 1]);
            }
        }
        assert forall|e: usize| v0.contains(e) && e != x implies v1.contains(e) by {
            let k = choose|k: int| 0 <= k < v0.len() && v0[k] == e;
            if k < i {
                assert(v1[k] == e);
            } else if k > i {
                assert(v1[k - 1] == e);
            }
        }
    }
    true
}


/// The directed graph: vertex and edge maps, both iterated in ascending id
/// order, and the monotonically increasing id of the next edge.
#[derive(Clone, Debug)]
pub struct DirectedGraph {
    /// Vertices, sorted strictly ascending by `vertex_id`.
    pub vertex_map: Vec<Vertex>,
    /// Edges, sorted strictly ascending by `edge_id`.
    pub edge_map: Vec<Edge>,
    /// Edge ids are assigned from this counter, starting at 1, never reused.
    pub next_edge_id: usize,
}

impl DirectedGraph {
    /// The vertex ids, in storage order.
    pub open spec fn vkeys(self) -> Seq<usize> {
        self.vertex_map@.map_values(|v: Vertex| v.vertex_id)
    }

    /// The edge ids, in storage order.
    pub open spec fn ekeys(self) -> Seq<usize> {
        self.edge_map@.map_values(|e: Edge| e.edge_id)
    }

    pub open spec fn has_vertex(self, id: usize) -> bool {
        self.vkeys().contains(id)
    }

    pub open spec fn has_edge(self, id: usize) -> bool {
        self.ekeys().contains(id)
    }

    /// The storage index of the vertex with the given id.
    pub open spec fn vindex(self, id: usize) -> int {
        choose|i: int| 0 <= i < self.vertex_map@.len() && self.vertex_map@[i].vertex_id == id
    }

    /// The vertex record with the given id.
    pub open spec fn vertex_of(self, id: usize) -> Vertex {
        self.vertex_map@[self.vindex(id)]
    }

    /// The storage index of the edge with the given id.
    pub open spec fn eindex(self, id: usize) -> int {
        choose|i: int| 0 <= i < self.edge_map@.len() && self.edge_map@[i].edge_id == id
    }

    /// The edge record with the given id.
    pub open spec fn edge_of(self, id: usize) -> Edge {
        self.edge_map@[self.eindex(id)]
    }

    /// The incoming edge ids of a vertex, ascending; empty for an unknown
    /// vertex.
    pub open spec fn incoming_ids(self, id: usize) -> Seq<usize> {
        if self.has_vertex(id) {
            self.vertex_of(id).incoming@
        } else {
            Seq::empty()
        }
    }

    /// The outgoing edge ids of a vertex, ascending; empty for an unknown
    /// vertex.
    pub open spec fn outgoing_ids(self, id: usize) -> Seq<usize> {
        if self.has_vertex(id) {
            self.vertex_of(id).outgoing@
        } else {
            Seq::empty()
        }
    }

    /// Structural invariant: sorted unique ids, adjacency sets referencing
    /// existing edges with matching endpoints, edge endpoints existing as
    /// vertices, and all edge ids below the running counter.
    pub open spec fn wf(self) -> bool {
        &&& strictly_sorted(self.vkeys())
        &&& strictly_sorted(self.ekeys())
        &&& self.next_edge_id >= 1
        &&& forall|i: int|
            0 <= i < self.vertex_map@.len() ==> (#[trigger] self.vertex_map@[i]).wf()
        &&& forall|i: int|
            0 <= i < self.edge_map@.len() ==> (#[trigger] self.edge_map@[i]).edge_id
                < self.next_edge_id
        &&& forall|i: int|
            0 <= i < self.edge_map@.len() ==> self.has_vertex(
                (#[trigger] self.edge_map@[i]).source,
            ) && self.has_vertex(self.edge_map@[i].dest)
        &&& forall|i: int, j: int|
            0 <= i < self.vertex_map@.len() && 0 <= j < self.vertex_map@[i].outgoing@.len()
                ==> self.has_edge(#[trigger] self.vertex_map@[i].outgoing@[j]) && self.edge_of(
                self.vertex_map@[i].outgoing@[j],
            ).source == self.vertex_map@[i].vertex_id
        &&& forall|i: int, j: int|
            0 <= i < self.vertex_map@.len() && 0 <= j < self.vertex_map@[i].incoming@.len()
                ==> self.has_edge(#[trigger] self.vertex_map@[i].incoming@[j]) && self.edge_of(
                self.vertex_map@[i].incoming@[j],
            ).dest == self.vertex_map@[i].vertex_id
    }

    /// In a well-formed graph, a storage index holding the looked-up id is
    /// the index `vindex` names.
    pub proof fn lemma_vindex(self, id: usize, i: int)
        requires
            strictly_sorted(self.vkeys()),
            0 <= i < self.vertex_map@.len(),
            self.vertex_map@[i].vertex_id == id,
        ensures
            self.vindex(id) == i,
            self.has_vertex(id),
            self.vertex_of(id) == self.vertex_map@[i],
    {
        assert(self.vkeys()[i] == id);
        assert(self.has_vertex(id));
        let j = self.vindex(id);
        assert(self.vkeys()[j] == id);
        if i < j {
            assert(self.vkeys()[i] < self.vkeys()[j]);
        } else if j < i {
            assert(self.vkeys()[j] < self.vkeys()[i]);
        }
    }

    /// In a well-formed graph, a storage index holding the looked-up edge id
    /// is the index `eindex` names.
    pub proof fn lemma_eindex(self, id: usize, i: int)
        requires
            strictly_sorted(self.ekeys()),
            0 <= i < self.edge_map@.len(),
            self.edge_map@[i].edge_id == id,
        ensures
            self.eindex(id) == i,
            self.has_edge(id),
            self.edge_of(id) == self.edge_map@[i],
    {
        assert(self.ekeys()[i] == id);
        assert(self.has_edge(id));
        let j = self.eindex(id);
        assert(self.ekeys()[j] == id);
        if i < j {
            assert(self.ekeys()[i] < self.ekeys()[j]);
        } else if j < i {
            assert(self.ekeys()[j] < self.ekeys()[i]);
        }
    }

    /// The storage index of a vertex id, if present.
    fn vfind(&self, id: usize) -> (r: Option<usize>)
        requires
            strictly_sorted(self.vkeys()),
        ensures
            match r {
                Some(i) => i < self.vertex_map@.len() && self.vertex_map@[i as int].vertex_id
                    == id && self.vindex(id) == i && self.has_vertex(id) && self.vertex_of(id)
                    == self.vertex_map@[i as int],
                None => !self.has_vertex(id),
            },
    {
        let mut i: usize = 0;
        while i < self.vertex_map.len()
            invariant
                strictly_sorted(self.vkeys()),
                i <= self.vertex_map@.len(),
                forall|k: int| 0 <= k < i ==> self.vertex_map@[k].vertex_id != id,
            decreases self.vertex_map@.len() - i,
        {
            if self.vertex_map[i].vertex_id == id {
                proof {
                    self.lemma_vindex(id, i as int);
                }
                return Some(i);
            }
            i = i + 1;
        }
        proof {
            assert forall|k: int| 0 <= k < self.vkeys().len() implies self.vkeys()[k] != id by {
                assert(self.vertex_map@[k].vertex_id != id);
            }
        }
        None
    }

    /// The storage index of an edge id, if present.
    fn efind(&self, id: usize) -> (r: Option<usize>)
        requires
            strictly_sorted(self.ekeys()),
        ensures
            match r {
                Some(i) => i < self.edge_map@.len() && self.edge_map@[i as int].edge_id == id
                    && self.eindex(id) == i && self.has_edge(id) && self.edge_of(id)
                    == self.edge_map@[i as int],
                None => !self.has_edge(id),
            },
    {
        let mut i: usize = 0;
        while i < self.edge_map.len()
            invariant
                strictly_sorted(self.ekeys()),
                i <= self.edge_map@.len(),
                forall|k: int| 0 <= k < i ==> self.edge_map@[k].edge_id != id,
            decreases self.edge_map@.len() - i,
        {
            if self.edge_map[i].edge_id == id {
                proof {
                    self.lemma_eindex(id, i as int);
                }
                return Some(i);
            }
            i = i + 1;
        }
        proof {
            assert forall|k: int| 0 <= k < self.ekeys().len() implies self.ekeys()[k] != id by {
                assert(self.edge_map@[k].edge_id != id);
            }
        }
        None
    }

    pub fn new() -> (g: DirectedGraph)
        ensures
            g.wf(),
            g.vkeys().len() == 0,
            g.ekeys().len() == 0,
            g.next_edge_id == 1,
    {
        DirectedGraph { vertex_map: Vec::new(), edge_map: Vec::new(), next_edge_id: 1 }
    }

    /// Defines a new vertex: created if absent, returning the new vertex
    /// count; `None` signals "already exists".
    pub fn define_vertex(&mut self, id: usize) -> (r: Option<usize>)
        requires
            old(self).wf(),
        ensures
            final(self).wf(),
            old(self).has_vertex(id) ==> r is None && *final(self) == *old(self),
            !old(self).has_vertex(id) ==> r == Some(final(self).vertex_map@.len() as usize),
            final(self).has_vertex(id),
            forall|x: usize| final(self).has_vertex(x) <==> (old(self).has_vertex(x) || x == id),
            !old(self).has_vertex(id) ==> final(self).vertex_map@.len() == old(self).vertex_map@.len() + 1,
            !old(self).has_vertex(id) ==> final(self).vertex_of(id).vertex_id == id && final(self).vertex_of(id).incoming@.len() == 0 && final(self).vertex_of(id).outgoing@.len() == 0,
            forall|x: usize|
                x != id && old(self).has_vertex(x) ==> final(self).has_vertex(x) && final(self).vertex_of(x) == old(self).vertex_of(x),
            final(self).edge_map == old(self).edge_map,
            final(self).next_edge_id == old(self).next_edge_id,
    {
        let ghost g0 = *self;
        let mut pos: usize = 0;
        while pos < self.vertex_map.len() && self.vertex_map[pos].vertex_id < id
            invariant
                *self == g0,
                pos <= g0.vertex_map@.len(),
                forall|k: int| 0 <= k < pos ==> g0.vertex_map@[k].vertex_id < id,
            decreases g0.vertex_map@.len() - pos,
        {
            pos = pos + 1;
        }
        if pos < self.vertex_map.len() && self.vertex_map[pos].vertex_id == id {
            proof {
                g0.lemma_vindex(id, pos as int);
            }
            return None;
        }
        proof {
            assert forall|k: int| 0 <= k < g0.vkeys().len() implies g0.vkeys()[k] != id by {
                if k < pos {
                    assert(g0.vertex_map@[k].vertex_id < id);
                } else {
                    assert(g0.vkeys()[pos as int] <= g0.vkeys()[k]);
                    if pos < g0.vertex_map@.len() {
                        assert(g0.vertex_map@[pos as int].vertex_id > id);
                    }
                }
            }
            assert(!g0.has_vertex(id));
        }
        let nv = Vertex::new(id);
        self.vertex_map.insert(pos, nv);
        let r = Some(self.vertex_map.len());
        proof {
            let vm0 = g0.vertex_map@;
            let vm1 = self.vertex_map@;
            assert(vm1 == vm0.insert(pos as int, nv));
            assert forall|k: int| 0 <= k < vm1.len() implies self.vkeys()[k] == (if k < pos {
                vm0[k].vertex_id
            } else if k == pos {
                id
            } else {
                vm0[k - 1].vertex_id
            }) by {
                if k < pos {
                    assert(vm1[k] == vm0[k]);
                } else if k == pos {
                    assert(vm1[k] == nv);
                } else {
                    assert(vm1[k] == vm0[k - 1]);
                }
            }
            assert forall|a: int, b: int|
                0 <= a < b < vm1.len() implies self.vkeys()[a] < self.vkeys()[b] by {
                if b == pos {
                    assert(vm0[a].vertex_id < id);
                } else if a == pos {
                    assert(vm0[b - 1].vertex_id >= vm0[pos as int].vertex_id) by {
                        if b - 1 > pos {
                            assert(g0.vkeys()[pos as int] < g0.vkeys()[b - 1]);
                        }
                    }
                    assert(id < vm0[pos as int].vertex_id);
                } else if a < pos && b > pos {
                    assert(g0.vkeys()[a] < g0.vkeys()[b - 1]) by {
                        if a < b - 1 {
                        } else {
                            assert(a == b - 1);
                            assert(a < pos && b - 1 >= pos);
                        }
                    }
                } else if b < pos {
                    assert(g0.vkeys()[a] < g0.vkeys()[b]);
                } else {
                    assert(g0.vkeys()[a - 1] < g0.vkeys()[b - 1]);
                }
            }
            self.lemma_vindex(id, pos as int);
            assert forall|x: usize|
                final(self).has_vertex(x) implies (g0.has_vertex(x) || x == id) by {
                let k = choose|k: int|
                    0 <= k < vm1.len() && self.vkeys()[k] == x;
                assert(vm1[k].vertex_id == x);
                if k < pos {
                    assert(g0.vkeys()[k] == x);
                } else if k > pos {
                    assert(g0.vkeys()[k - 1] == x);
                }
            }
            assert forall|x: usize| g0.has_vertex(x) implies final(self).has_vertex(x) by {
                let k = choose|k: int| 0 <= k < vm0.len() && g0.vkeys()[k] == x;
                assert(vm0[k].vertex_id == x);
                if k < pos {
                    assert(vm1[k].vertex_id == x);
                    assert(self.vkeys()[k] == x);
                } else {
                    assert(vm1[k + 1].vertex_id == x);
                    assert(self.vkeys()[k + 1] == x);
                }
            }
            assert forall|x: usize|
                x != id && g0.has_vertex(x) implies final(self).vertex_of(x) == g0.vertex_of(
                x,
            ) by {
                let k = g0.vindex(x);
                assert(vm0[k].vertex_id == x);
                if k < pos {
                    assert(vm1[k].vertex_id == x);
                    self.lemma_vindex(x, k);
                } else {
                    assert(vm1[k + 1].vertex_id == x);
                    self.lemma_vindex(x, k + 1);
                }
            }
            assert forall|i: int, j: int|
                0 <= i < vm1.len() && 0 <= j < vm1[i].outgoing@.len() implies self.has_edge(
                #[trigger] vm1[i].outgoing@[j],
            ) && self.edge_of(vm1[i].outgoing@[j]).source == vm1[i].vertex_id by {
                assert(vm1[i] == if i < pos { vm0[i] } else if i == pos { nv } else { vm0[i - 1] });
            }
            assert forall|i: int, j: int|
                0 <= i < vm1.len() && 0 <= j < vm1[i].incoming@.len() implies self.has_edge(
                #[trigger] vm1[i].incoming@[j],
            ) && self.edge_of(vm1[i].incoming@[j]).dest == vm1[i].vertex_id by {
                assert(vm1[i] == if i < pos { vm0[i] } else if i == pos { nv } else { vm0[i - 1] });
            }
            assert forall|i: int| 0 <= i < vm1.len() implies (#[trigger] vm1[i]).wf() by {
                assert(vm1[i] == if i < pos { vm0[i] } else if i == pos { nv } else { vm0[i - 1] });
            }
        }
        r
    }
}


/// A mutable borrow of one vertex slot.
fn vertex_mut(v: &mut Vec<Vertex>, i: usize) -> (element: &mut Vertex)
    requires
        i < old(v).len(),
    ensures
        *element == old(v)@[i as int],
        final(v)@ == old(v)@.update(i as int, *final(element)),
{
    &mut v[i]
}

/// One edge record was minted: the id came from the counter, the record was
/// appended, and everything else is untouched.
pub open spec fn edge_record_added(
    pre: DirectedGraph,
    post: DirectedGraph,
    eid: usize,
    source: usize,
    dest: usize,
    weight: i64,
) -> bool {
    &&& eid == pre.next_edge_id
    &&& post.next_edge_id == pre.next_edge_id + 1
    &&& post.vertex_map == pre.vertex_map
    &&& post.edge_map@ == pre.edge_map@.push(
        Edge { edge_id: eid, source: source, dest: dest, weight: weight },
    )
    &&& !pre.has_edge(eid)
    &&& post.has_edge(eid)
    &&& post.edge_of(eid) == (Edge { edge_id: eid, source: source, dest: dest, weight: weight })
    &&& forall|e: usize| post.has_edge(e) <==> (pre.has_edge(e) || e == eid)
    &&& forall|e: usize| e != eid && pre.has_edge(e) ==> post.edge_of(e) == pre.edge_of(e)
}

impl DirectedGraph {
    /// Appends a freshly numbered edge record; adjacency is left to the
    /// caller.
    fn push_edge_record(&mut self, source: usize, dest: usize, weight: i64) -> (eid: usize)
        requires
            old(self).wf(),
            old(self).has_vertex(source),
            old(self).has_vertex(dest),
            old(self).next_edge_id < usize::MAX,
        ensures
            final(self).wf(),
            edge_record_added(*old(self), *final(self), eid, source, dest, weight),
    {
        let eid = self.next_edge_id;
        self.next_edge_id = self.next_edge_id + 1;
        let e = Edge::new(eid, source, dest, weight);
        let ghost g0 = *old(self);
        let ghost em0 = g0.edge_map@;
        self.edge_map.push(e);
        proof {
            let em1 = self.edge_map@;
            assert(em1 == em0.push(e));
            assert forall|k: int| 0 <= k < em1.len() implies self.ekeys()[k] == (if k < em0.len() {
                em0[k].edge_id
            } else {
                eid
            }) by {
                if k < em0.len() {
                    assert(em1[k] == em0[k]);
                }
            }
            assert forall|k: int| 0 <= k < em0.len() implies em0[k].edge_id < eid by {
                assert(g0.ekeys()[k] == em0[k].edge_id);
            }
            assert forall|a: int, b: int|
                0 <= a < b < em1.len() implies self.ekeys()[a] < self.ekeys()[b] by {
                if b < em0.len() {
                    assert(g0.ekeys()[a] < g0.ekeys()[b]);
                }
            }
            assert(!g0.has_edge(eid)) by {
                assert forall|k: int| 0 <= k < em0.len() implies g0.ekeys()[k] != eid by {
                    assert(em0[k].edge_id < eid);
                }
            }
            self.lemma_eindex(eid, em0.len() as int);
            assert forall|x: usize| self.has_edge(x) implies (g0.has_edge(x) || x == eid) by {
                let k = choose|k: int| 0 <= k < em1.len() && self.ekeys()[k] == x;
                if k < em0.len() {
                    assert(g0.ekeys()[k] == x);
                }
            }
            assert forall|x: usize| g0.has_edge(x) implies self.has_edge(x) by {
                let k = choose|k: int| 0 <= k < em0.len() && g0.ekeys()[k] == x;
                assert(em1[k].edge_id == x);
                assert(self.ekeys()[k] == x);
            }
            assert forall|x: usize|
                x != eid && g0.has_edge(x) implies self.edge_of(x) == g0.edge_of(x) by {
                let k = g0.eindex(x);
                assert(em0[k].edge_id == x);
                assert(em1[k].edge_id == x);
                self.lemma_eindex(x, k);
            }
            assert forall|i: int, j: int|
                0 <= i < self.vertex_map@.len() && 0 <= j
                    < self.vertex_map@[i].outgoing@.len() implies self.has_edge(
                #[trigger] self.vertex_map@[i].outgoing@[j],
            ) && self.edge_of(self.vertex_map@[i].outgoing@[j]).source
                == self.vertex_map@[i].vertex_id by {
                let x = self.vertex_map@[i].outgoing@[j];
                assert(g0.has_edge(x));
                assert(x != eid);
            }
            assert forall|i: int, j: int|
                0 <= i < self.vertex_map@.len() && 0 <= j
                    < self.vertex_map@[i].incoming@.len() implies self.has_edge(
                #[trigger] self.vertex_map@[i].incoming@[j],
            ) && self.edge_of(self.vertex_map@[i].incoming@[j]).dest
                == self.vertex_map@[i].vertex_id by {
                let x = self.vertex_map@[i].incoming@[j];
                assert(g0.has_edge(x));
                assert(x != eid);
            }
        }
        eid
    }

    /// Defines a new edge between existing vertices; endpoints equal to the
    /// reserved sentinel 0, or unknown, are rejected.  The edge is recorded
    /// but not registered in any adjacency set.
    pub fn define_edge(&mut self, source: usize, dest: usize, weight: i64) -> (r: Option<usize>)
        requires
            old(self).wf(),
            old(self).next_edge_id < usize::MAX,
        ensures
            final(self).wf(),
            (source == 0 || dest == 0 || !old(self).has_vertex(source) || !old(self).has_vertex(
                dest,
            )) ==> r is None && *final(self) == *old(self),
            (source != 0 && dest != 0 && old(self).has_vertex(source) && old(self).has_vertex(
                dest,
            )) ==> r == Some(old(self).next_edge_id) && edge_record_added(
                *old(self),
                *final(self),
                old(self).next_edge_id,
                source,
                dest,
                weight,
            ),
    {
        if source == 0 || dest == 0 {
            return None;
        }
        if self.vfind(source).is_none() {
            return None;
        }
        if self.vfind(dest).is_none() {
            return None;
        }
        let eid = self.push_edge_record(source, dest, weight);
        Some(eid)
    }
}


/// Two graphs with the same edge storage agree on edge lookups.
pub proof fn lemma_edge_of_eq(a: DirectedGraph, b: DirectedGraph, e: usize)
    requires
        a.edge_map@ == b.edge_map@,
        strictly_sorted(a.ekeys()),
        a.has_edge(e),
    ensures
        b.has_edge(e),
        b.edge_of(e) == a.edge_of(e),
{
    let i = a.eindex(e);
    assert(a.ekeys()[i] == e);
    assert(a.edge_map@[i].edge_id == e);
    assert(b.ekeys() =~= a.ekeys());
    b.lemma_eindex(e, i);
}

impl DirectedGraph {
    /// Copies out the edge record with the given id.
    fn edge_by_id(&self, eid: usize) -> (e: Edge)
        requires
            strictly_sorted(self.ekeys()),
            self.has_edge(eid),
        ensures
            e == self.edge_of(eid),
    {
        match self.efind(eid) {
            Some(i) => self.edge_map[i],
            None => vstd::pervasive::unreached(),
        }
    }

    /// Registers an existing edge in its source's outgoing set and its
    /// dest's incoming set.
    fn register_edge(&mut self, eid: usize)
        requires
            old(self).wf(),
            old(self).has_edge(eid),
        ensures
            final(self).wf(),
            final(self).edge_map == old(self).edge_map,
            final(self).next_edge_id == old(self).next_edge_id,
            final(self).vkeys() == old(self).vkeys(),
            forall|x: usize, e: usize|
                final(self).outgoing_ids(x).contains(e) <==> (old(self).outgoing_ids(x).contains(
                    e,
                ) || (x == old(self).edge_of(eid).source && e == eid)),
            forall|x: usize, e: usize|
                final(self).incoming_ids(x).contains(e) <==> (old(self).incoming_ids(x).contains(
                    e,
                ) || (x == old(self).edge_of(eid).dest && e == eid)),
    {
        let ghost g0 = *self;
        let e = self.edge_by_id(eid);
        proof {
            let k = g0.eindex(eid);
            assert(g0.edge_map@[k] == e);
            assert(g0.has_vertex(e.source) && g0.has_vertex(e.dest));
        }
        let si = match self.vfind(e.source) {
            Some(i) => i,
            None => vstd::pervasive::unreached(),
        };
        let vm = vertex_mut(&mut self.vertex_map, si);
        vm.add_outgoing(eid);
        let ghost g1 = *self;
        proof {
            let vm0 = g0.vertex_map@;
            let vm1 = g1.vertex_map@;
            assert forall|k: int| 0 <= k < vm1.len() implies g1.vkeys()[k] == g0.vkeys()[k] by {
                if k != si {
                    assert(vm1[k] == vm0[k]);
                }
            }
            assert(g1.vkeys() =~= g0.vkeys());
            assert forall|i: int| 0 <= i < vm1.len() implies (#[trigger] vm1[i]).wf() by {
                if i != si {
                    assert(vm1[i] == vm0[i]);
                }
            }
            assert forall|i: int, j: int|
                0 <= i < vm1.len() && 0 <= j < vm1[i].outgoing@.len() implies g1.has_edge(
                #[trigger] vm1[i].outgoing@[j],
            ) && g1.edge_of(vm1[i].outgoing@[j]).source == vm1[i].vertex_id by {
                let x = vm1[i].outgoing@[j];
                if i != si {
                    assert(vm1[i] == vm0[i]);
                } else {
                    assert(vm1[i].outgoing@.contains(x));
                    if vm0[i].outgoing@.contains(x) {
                        let j0 = choose|j0: int|
                            0 <= j0 < vm0[i].outgoing@.len() && vm0[i].outgoing@[j0] == x;
                        assert(g0.has_edge(x) && g0.edge_of(x).source == vm0[i].vertex_id);
                    } else {
                        assert(x == eid);
                        assert(g0.edge_of(eid).source == e.source);
                        assert(vm0[si as int].vertex_id == e.source);
                    }
                }
            }
            assert forall|i: int, j: int|
                0 <= i < vm1.len() && 0 <= j < vm1[i].incoming@.len() implies g1.has_edge(
                #[trigger] vm1[i].incoming@[j],
            ) && g1.edge_of(vm1[i].incoming@[j]).dest == vm1[i].vertex_id by {
                if i != si {
                    assert(vm1[i] == vm0[i]);
                } else {
                    assert(vm1[i].incoming == vm0[i].incoming);
                }
            }
            assert(g1.wf());
        }
        let di = match self.vfind(e.dest) {
            Some(i) => i,
            None => vstd::pervasive::unreached(),
        };
        let vm2 = vertex_mut(&mut self.vertex_map, di);
        vm2.add_incoming(eid);
        proof {
            let g2 = *self;
            let vm0 = g0.vertex_map@;
            let vm1 = g1.vertex_map@;
            let vm2s = g2.vertex_map@;
            assert forall|k: int| 0 <= k < vm2s.len() implies g2.vkeys()[k] == g1.vkeys()[k] by {
                if k != di {
                    assert(vm2s[k] == vm1[k]);
                }
            }
            assert(g2.vkeys() =~= g0.vkeys());
            assert forall|i: int| 0 <= i < vm2s.len() implies (#[trigger] vm2s[i]).wf() by {
                if i != di {
                    assert(vm2s[i] == vm1[i]);
                }
            }
            assert forall|i: int, j: int|
                0 <= i < vm2s.len() && 0 <= j < vm2s[i].outgoing@.len() implies g2.has_edge(
                #[trigger] vm2s[i].outgoing@[j],
            ) && g2.edge_of(vm2s[i].outgoing@[j]).source == vm2s[i].vertex_id by {
                if i != di {
                    assert(vm2s[i] == vm1[i]);
                } else {
                    assert(vm2s[i].outgoing == vm1[i].outgoing);
                    assert(vm2s[i].vertex_id == vm1[i].vertex_id);
                }
            }
            assert forall|i: int, j: int|
                0 <= i < vm2s.len() && 0 <= j < vm2s[i].incoming@.len() implies g2.has_edge(
                #[trigger] vm2s[i].incoming@[j],
            ) && g2.edge_of(vm2s[i].incoming@[j]).dest == vm2s[i].vertex_id by {
                let x = vm2s[i].incoming@[j];
                if i != di {
                    assert(vm2s[i] == vm1[i]);
                } else {
                    assert(vm2s[i].incoming@.contains(x));
                    if vm1[i].incoming@.contains(x) {
                        let j0 = choose|j0: int|
                            0 <= j0 < vm1[i].incoming@.len() && vm1[i].incoming@[j0] == x;
                        assert(g1.has_edge(x) && g1.edge_of(x).dest == vm1[i].vertex_id);
                    } else {
                        assert(x == eid);
                        assert(g0.edge_of(eid).dest == e.dest);
                        assert(vm1[di as int].vertex_id == e.dest);
                    }
                }
            }
            assert(g2.wf());
            assert forall|x: usize, ee: usize|
                g2.outgoing_ids(x).contains(ee) <==> (g0.outgoing_ids(x).contains(ee) || (x
                    == e.source && ee == eid)) by {
                if g0.has_vertex(x) {
                    let i = g0.vindex(x);
                    assert(vm0[i].vertex_id == x);
                    assert(vm2s[i].vertex_id == x);
                    g0.lemma_vindex(x, i);
                    g2.lemma_vindex(x, i);
                    if i == si {
                        assert(vm0[i].vertex_id == e.source);
                    } else {
                        assert(vm1[i].outgoing == vm0[i].outgoing);
                        if x == e.source {
                            let i2 = g0.vindex(e.source);
                            assert(vm0[si as int].vertex_id == e.source);
                            g0.lemma_vindex(e.source, si as int);
                            assert(i == si);
                        }
                    }
                    if i == di {
                        assert(vm2s[i].outgoing == vm1[i].outgoing);
                    } else {
                        assert(vm2s[i] == vm1[i]);
                    }
                } else {
                    assert(!g2.has_vertex(x));
                    assert(x != e.source);
                }
            }
            assert forall|x: usize, ee: usize|
                g2.incoming_ids(x).contains(ee) <==> (g0.incoming_ids(x).contains(ee) || (x
                    == e.dest && ee == eid)) by {
                if g0.has_vertex(x) {
                    let i = g0.vindex(x);
                    assert(vm0[i].vertex_id == x);
                    assert(vm2s[i].vertex_id == x);
                    g0.lemma_vindex(x, i);
                    g2.lemma_vindex(x, i);
                    if i == si {
                        assert(vm1[i].incoming == vm0[i].incoming);
                    } else {
                        assert(vm1[i] == vm0[i]);
                    }
                    if i == di {
                        assert(vm1[i].vertex_id == e.dest);
                    } else {
                        assert(vm2s[i] == vm1[i]);
                        if x == e.dest {
                            assert(vm1[di as int].vertex_id == e.dest);
                            g1.lemma_vindex(e.dest, di as int);
                            g1.lemma_vindex(x, i);
                            assert(i == di);
                        }
                    }
                } else {
                    assert(!g2.has_vertex(x));
                    assert(x != e.dest);
                }
            }
        }
    }

    /// Creates both endpoints if needed, defines the edge, and registers it
    /// in the adjacency sets.  Returns the fresh edge id, or `None` when an
    /// endpoint is the reserved sentinel 0.
    pub fn add_edge(&mut self, v1: usize, v2: usize, weight: i64) -> (r: Option<usize>)
        requires
            old(self).wf(),
            old(self).next_edge_id < usize::MAX,
        ensures
            final(self).wf(),
            forall|x: usize|
                final(self).has_vertex(x) <==> (old(self).has_vertex(x) || x == v1 || x == v2),
            final(self).next_edge_id == old(self).next_edge_id + (if v1 != 0 && v2 != 0 {
                1int
            } else {
                0int
            }),
            (v1 == 0 || v2 == 0) ==> r is None && final(self).edge_map == old(self).edge_map
                && (forall|x: usize, e: usize|
                final(self).outgoing_ids(x).contains(e) == old(self).outgoing_ids(x).contains(e))
                && (forall|x: usize, e: usize|
                final(self).incoming_ids(x).contains(e) == old(self).incoming_ids(x).contains(e)),
            (v1 != 0 && v2 != 0) ==> final(self).edge_map@ == old(self).edge_map@.push(
                (Edge { edge_id: old(self).next_edge_id, source: v1, dest: v2, weight: weight }),
            ),
            (v1 != 0 && v2 != 0) ==> r == Some(old(self).next_edge_id) && (forall|e: usize|
                final(self).has_edge(e) <==> (old(self).has_edge(e) || e == old(
                    self,
                ).next_edge_id)) && final(self).edge_of(old(self).next_edge_id) == (Edge {
                edge_id: old(self).next_edge_id,
                source: v1,
                dest: v2,
                weight: weight,
            }) && (forall|e: usize|
                e != old(self).next_edge_id && old(self).has_edge(e) ==> final(self).edge_of(e)
                    == old(self).edge_of(e)) && (forall|x: usize, e: usize|
                final(self).outgoing_ids(x).contains(e) <==> (old(self).outgoing_ids(x).contains(
                    e,
                ) || (x == v1 && e == old(self).next_edge_id))) && (forall|x: usize, e: usize|
                final(self).incoming_ids(x).contains(e) <==> (old(self).incoming_ids(x).contains(
                    e,
                ) || (x == v2 && e == old(self).next_edge_id))),
    {
        let ghost g0 = *self;
        let _ = self.define_vertex(v1);
        let ghost ga = *self;
        let _ = self.define_vertex(v2);
        let ghost gb = *self;
        proof {
            assert forall|x: usize, e: usize|
                gb.outgoing_ids(x).contains(e) == g0.outgoing_ids(x).contains(e) by {
                if g0.has_vertex(x) {
                    assert(gb.vertex_of(x) == g0.vertex_of(x));
                } else if gb.has_vertex(x) {
                    assert(gb.vertex_of(x).outgoing@.len() == 0);
                    assert(!gb.outgoing_ids(x).contains(e));
                }
            }
            assert forall|x: usize, e: usize|
                gb.incoming_ids(x).contains(e) == g0.incoming_ids(x).contains(e) by {
                if g0.has_vertex(x) {
                    assert(gb.vertex_of(x) == g0.vertex_of(x));
                } else if gb.has_vertex(x) {
                    assert(gb.vertex_of(x).incoming@.len() == 0);
                    assert(!gb.incoming_ids(x).contains(e));
                }
            }
        }
        if v1 != 0 && v2 != 0 {
            let eid = self.push_edge_record(v1, v2, weight);
            let ghost gc = *self;
            self.register_edge(eid);
            proof {
                assert(gc.outgoing_ids(v1) == gb.outgoing_ids(v1));
                lemma_edge_of_eq(gc, *self, eid);
                assert forall|e: usize|
                    final(self).has_edge(e) <==> (g0.has_edge(e) || e == eid) by {
                    assert(gb.ekeys() == g0.ekeys());
                    assert(final(self).ekeys() == gc.ekeys());
                    assert(gb.has_edge(e) == g0.has_edge(e));
                    assert(gc.has_edge(e) <==> (gb.has_edge(e) || e == eid));
                }
                assert forall|e: usize|
                    e != eid && g0.has_edge(e) implies final(self).edge_of(e) == g0.edge_of(
                    e,
                ) by {
                    lemma_edge_of_eq(g0, gb, e);
                    assert(gc.edge_of(e) == gb.edge_of(e));
                    lemma_edge_of_eq(gc, *self, e);
                }
                assert forall|x: usize, e: usize|
                    final(self).outgoing_ids(x).contains(e) <==> (g0.outgoing_ids(x).contains(e)
                        || (x == v1 && e == eid)) by {
                    assert(gc.outgoing_ids(x) == gb.outgoing_ids(x));
                }
                assert forall|x: usize, e: usize|
                    final(self).incoming_ids(x).contains(e) <==> (g0.incoming_ids(x).contains(e)
                        || (x == v2 && e == eid)) by {
                    assert(gc.incoming_ids(x) == gb.incoming_ids(x));
                }
            }
            Some(eid)
        } else {
            None
        }
    }

    /// Creates the vertex if absent; a duplicate is ignored.
    pub fn add_vertex(&mut self, id: usize)
        requires
            old(self).wf(),
        ensures
            final(self).wf(),
            final(self).has_vertex(id),
            forall|x: usize| final(self).has_vertex(x) <==> (old(self).has_vertex(x) || x == id),
            forall|x: usize|
                x != id && old(self).has_vertex(x) ==> final(self).vertex_of(x) == old(
                    self,
                ).vertex_of(x),
            final(self).edge_map == old(self).edge_map,
            final(self).next_edge_id == old(self).next_edge_id,
    {
        let _ = self.define_vertex(id);
    }

    /// The super-source's own insertion path: writes a zero-weight edge from
    /// the reserved vertex 0 directly, bypassing the sentinel check, and
    /// registers it.
    pub(crate) fn add_super_edge(&mut self, dest: usize) -> (eid: usize)
        requires
            old(self).wf(),
            old(self).has_vertex(0),
            old(self).has_vertex(dest),
            dest != 0,
            old(self).next_edge_id < usize::MAX,
        ensures
            final(self).wf(),
            eid == old(self).next_edge_id,
            final(self).next_edge_id == old(self).next_edge_id + 1,
            final(self).vkeys() == old(self).vkeys(),
            final(self).edge_map@ == old(self).edge_map@.push(
                (Edge { edge_id: eid, source: 0, dest: dest, weight: 0 }),
            ),
            forall|e: usize| final(self).has_edge(e) <==> (old(self).has_edge(e) || e == eid),
            final(self).edge_of(eid) == (Edge { edge_id: eid, source: 0, dest: dest, weight: 0 }),
            forall|e: usize|
                e != eid && old(self).has_edge(e) ==> final(self).edge_of(e) == old(self).edge_of(
                    e,
                ),
            forall|x: usize, e: usize|
                final(self).outgoing_ids(x).contains(e) <==> (old(self).outgoing_ids(x).contains(
                    e,
                ) || (x == 0 && e == eid)),
            forall|x: usize, e: usize|
                final(self).incoming_ids(x).contains(e) <==> (old(self).incoming_ids(x).contains(
                    e,
                ) || (x == dest && e == eid)),
    {
        let ghost g0 = *self;
        let eid = self.push_edge_record(0, dest, 0);
        let ghost gc = *self;
        self.register_edge(eid);
        proof {
            assert forall|x: usize, e: usize|
                final(self).outgoing_ids(x).contains(e) <==> (g0.outgoing_ids(x).contains(e) || (x
                    == 0 && e == eid)) by {
                assert(gc.outgoing_ids(x) == g0.outgoing_ids(x));
            }
            assert forall|x: usize, e: usize|
                final(self).incoming_ids(x).contains(e) <==> (g0.incoming_ids(x).contains(e) || (x
                    == dest && e == eid)) by {
                assert(gc.incoming_ids(x) == g0.incoming_ids(x));
            }
        }
        eid
    }
}


/// The weight of the first edge in `ids` (ascending edge-id order) whose
/// source is the given vertex.
pub open spec fn first_weight_from(g: DirectedGraph, ids: Seq<usize>, source: usize) -> Option<
    i64,
>
    decreases ids.len(),
{
    if ids.len() == 0 {
        None
    } else if g.edge_of(ids[0]).source == source {
        Some(g.edge_of(ids[0]).weight)
    } else {
        first_weight_from(g, ids.skip(1), source)
    }
}

/// The weight of the first edge in `ids` (ascending edge-id order) whose
/// dest is the given vertex.
pub open spec fn first_weight_to(g: DirectedGraph, ids: Seq<usize>, dest: usize) -> Option<i64>
    decreases ids.len(),
{
    if ids.len() == 0 {
        None
    } else if g.edge_of(ids[0]).dest == dest {
        Some(g.edge_of(ids[0]).weight)
    } else {
        first_weight_to(g, ids.skip(1), dest)
    }
}

impl DirectedGraph {
    /// Copies out the vertex record with the given id.
    fn vertex_by_id(&self, id: usize) -> (i: usize)
        requires
            strictly_sorted(self.vkeys()),
            self.has_vertex(id),
        ensures
            i < self.vertex_map@.len(),
            i == self.vindex(id),
            self.vertex_map@[i as int] == self.vertex_of(id),
    {
        match self.vfind(id) {
            Some(i) => i,
            None => vstd::pervasive::unreached(),
        }
    }

    /// Retrieves the outgoing edge records of a vertex, in ascending
    /// edge-id order.
    pub fn get_outgoing(&self, vertex: usize) -> (r: Vec<Edge>)
        requires
            self.wf(),
            self.has_vertex(vertex),
        ensures
            r@.len() == self.outgoing_ids(vertex).len(),
            forall|k: int|
                0 <= k < r@.len() ==> r@[k] == self.edge_of(self.outgoing_ids(vertex)[k]),
    {
        let vi = self.vertex_by_id(vertex);
        let mut r: Vec<Edge> = Vec::new();
        let mut k: usize = 0;
        let n = self.vertex_map[vi].outgoing.len();
        while k < n
            invariant
                self.wf(),
                self.has_vertex(vertex),
                vi == self.vindex(vertex),
                vi < self.vertex_map@.len(),
                n == self.outgoing_ids(vertex).len(),
                k <= n,
                r@.len() == k,
                forall|j: int| 0 <= j < k ==> r@[j] == self.edge_of(self.outgoing_ids(vertex)[j]),
            decreases n - k,
        {
            let eid = self.vertex_map[vi].outgoing[k];
            proof {
                assert(self.vertex_map@[vi as int].outgoing@[k as int] == eid);
                assert(self.has_edge(eid));
            }
            let e = self.edge_by_id(eid);
            r.push(e);
            k = k + 1;
        }
        r
    }

    /// Retrieves the vertices reachable over one outgoing edge, in ascending
    /// edge-id order.
    pub fn get_outgoing_vertex(&self, vertex: usize) -> (r: Vec<usize>)
        requires
            self.wf(),
            self.has_vertex(vertex),
        ensures
            r@.len() == self.outgoing_ids(vertex).len(),
            forall|k: int|
                0 <= k < r@.len() ==> r@[k] == self.edge_of(self.outgoing_ids(vertex)[k]).dest,
    {
        let edges = self.get_outgoing(vertex);
        let mut r: Vec<usize> = Vec::new();
        let mut k: usize = 0;
        while k < edges.len()
            invariant
                k <= edges@.len(),
                r@.len() == k,
                forall|j: int| 0 <= j < k ==> r@[j] == edges@[j].dest,
            decreases edges@.len() - k,
        {
            r.push(edges[k].dest);
            k = k + 1;
        }
        r
    }

    /// The outgoing edge ids of a vertex, ascending.
    pub fn get_outgoing_edge_ids(&self, vertex: usize) -> (r: Vec<usize>)
        requires
            self.wf(),
            self.has_vertex(vertex),
        ensures
            r@ == self.outgoing_ids(vertex),
    {
        let vi = self.vertex_by_id(vertex);
        self.vertex_map[vi].get_outgoing_edges()
    }

    /// Retrieves the incoming edge records of a vertex, in ascending
    /// edge-id order.
    pub fn get_incoming(&self, vertex: usize) -> (r: Vec<Edge>)
        requires
            self.wf(),
            self.has_vertex(vertex),
        ensures
            r@.len() == self.incoming_ids(vertex).len(),
            forall|k: int|
                0 <= k < r@.len() ==> r@[k] == self.edge_of(self.incoming_ids(vertex)[k]),
    {
        let vi = self.vertex_by_id(vertex);
        let mut r: Vec<Edge> = Vec::new();
        let mut k: usize = 0;
        let n = self.vertex_map[vi].incoming.len();
        while k < n
            invariant
                self.wf(),
                self.has_vertex(vertex),
                vi == self.vindex(vertex),
                vi < self.vertex_map@.len(),
                n == self.incoming_ids(vertex).len(),
                k <= n,
                r@.len() == k,
                forall|j: int| 0 <= j < k ==> r@[j] == self.edge_of(self.incoming_ids(vertex)[j]),
            decreases n - k,
        {
            let eid = self.vertex_map[vi].incoming[k];
            proof {
                assert(self.vertex_map@[vi as int].incoming@[k as int] == eid);
                assert(self.has_edge(eid));
            }
            let e = self.edge_by_id(eid);
            r.push(e);
            k = k + 1;
        }
        r
    }

    /// Retrieves the vertices with an edge into this one, in ascending
    /// edge-id order.
    pub fn get_incoming_vertex(&self, vertex: usize) -> (r: Vec<usize>)
        requires
            self.wf(),
            self.has_vertex(vertex),
        ensures
            r@.len() == self.incoming_ids(vertex).len(),
            forall|k: int|
                0 <= k < r@.len() ==> r@[k] == self.edge_of(self.incoming_ids(vertex)[k]).source,
    {
        let edges = self.get_incoming(vertex);
        let mut r: Vec<usize> = Vec::new();
        let mut k: usize = 0;
        while k < edges.len()
            invariant
                k <= edges@.len(),
                r@.len() == k,
                forall|j: int| 0 <= j < k ==> r@[j] == edges@[j].source,
            decreases edges@.len() - k,
        {
            r.push(edges[k].source);
            k = k + 1;
        }
        r
    }

    /// The incoming edge ids of a vertex, ascending.
    pub fn get_incoming_edges(&self, vertex: usize) -> (r: Vec<usize>)
        requires
            self.wf(),
            self.has_vertex(vertex),
        ensures
            r@ == self.incoming_ids(vertex),
    {
        let vi = self.vertex_by_id(vertex);
        self.vertex_map[vi].get_incoming_edges()
    }

    /// The weight of the incoming connection from a given source vertex, if
    /// one exists; the first incoming edge in ascending id order decides.
    pub fn get_incoming_connection_weight(&self, source: usize, vertex: usize) -> (r: Option<
        i64,
    >)
        requires
            self.wf(),
            self.has_vertex(vertex),
        ensures
            r == first_weight_from(*self, self.incoming_ids(vertex), source),
    {
        let vi = self.vertex_by_id(vertex);
        let ghost ids = self.incoming_ids(vertex);
        let n = self.vertex_map[vi].incoming.len();
        let mut k: usize = 0;
        proof {
            assert(ids.skip(0) =~= ids);
        }
        while k < n
            invariant
                self.wf(),
                self.has_vertex(vertex),
                vi == self.vindex(vertex),
                vi < self.vertex_map@.len(),
                ids == self.incoming_ids(vertex),
                n == ids.len(),
                k <= n,
                first_weight_from(*self, ids, source) == first_weight_from(
                    *self,
                    ids.skip(k as int),
                    source,
                ),
            decreases n - k,
        {
            let eid = self.vertex_map[vi].incoming[k];
            proof {
                assert(self.vertex_map@[vi as int].incoming@[k as int] == eid);
                assert(self.has_edge(eid));
                assert(ids.skip(k as int)[0] == eid);
            }
            let e = self.edge_by_id(eid);
            if e.source == source {
                return Some(e.weight);
            }
            proof {
                assert(ids.skip(k as int).skip(1) =~= ids.skip(k + 1 as int));
            }
            k = k + 1;
        }
        proof {
            assert(ids.skip(n as int).len() == 0);
        }
        None
    }

    /// The weight of the outgoing connection to a given dest vertex, if one
    /// exists; the first outgoing edge in ascending id order decides.
    pub fn get_outgoing_connection_weight(&self, vertex: usize, dest: usize) -> (r: Option<i64>)
        requires
            self.wf(),
            self.has_vertex(vertex),
        ensures
            r == first_weight_to(*self, self.outgoing_ids(vertex), dest),
    {
        let vi = self.vertex_by_id(vertex);
        let ghost ids = self.outgoing_ids(vertex);
        let n = self.vertex_map[vi].outgoing.len();
        let mut k: usize = 0;
        proof {
            assert(ids.skip(0) =~= ids);
        }
        while k < n
            invariant
                self.wf(),
                self.has_vertex(vertex),
                vi == self.vindex(vertex),
                vi < self.vertex_map@.len(),
                ids == self.outgoing_ids(vertex),
                n == ids.len(),
                k <= n,
                first_weight_to(*self, ids, dest) == first_weight_to(
                    *self,
                    ids.skip(k as int),
                    dest,
                ),
            decreases n - k,
        {
            let eid = self.vertex_map[vi].outgoing[k];
            proof {
                assert(self.vertex_map@[vi as int].outgoing@[k as int] == eid);
                assert(self.has_edge(eid));
                assert(ids.skip(k as int)[0] == eid);
            }
            let e = self.edge_by_id(eid);
            if e.dest == dest {
                return Some(e.weight);
            }
            proof {
                assert(ids.skip(k as int).skip(1) =~= ids.skip(k + 1 as int));
            }
            k = k + 1;
        }
        proof {
            assert(ids.skip(n as int).len() == 0);
        }
        None
    }

    /// Deterministic ascending-id iteration over the vertices.
    pub fn vertex_iter(&self) -> (r: Vec<usize>)
        ensures
            r@ == self.vkeys(),
    {
        let mut r: Vec<usize> = Vec::new();
        let mut i: usize = 0;
        while i < self.vertex_map.len()
            invariant
                i <= self.vertex_map@.len(),
                r@.len() == i,
                forall|k: int| 0 <= k < i ==> r@[k] == self.vkeys()[k],
            decreases self.vertex_map@.len() - i,
        {
            r.push(self.vertex_map[i].vertex_id);
            i = i + 1;
        }
        proof {
            assert(r@ =~= self.vkeys());
        }
        r
    }

    /// The vertex ids, ascending.
    pub fn get_vertexes(&self) -> (r: Vec<usize>)
        ensures
            r@ == self.vkeys(),
    {
        self.vertex_iter()
    }

    /// Deterministic ascending-id iteration over the edge records.
    pub fn edge_iter(&self) -> (r: Vec<Edge>)
        ensures
            r@ == self.edge_map@,
    {
        let mut r: Vec<Edge> = Vec::new();
        let mut i: usize = 0;
        while i < self.edge_map.len()
            invariant
                i <= self.edge_map@.len(),
                r@ == self.edge_map@.take(i as int),
            decreases self.edge_map@.len() - i,
        {
            r.push(self.edge_map[i]);
            proof {
                assert(r@ =~= self.edge_map@.take(i + 1 as int));
            }
            i = i + 1;
        }
        proof {
            assert(r@ =~= self.edge_map@);
        }
        r
    }

    pub fn vertex_count(&self) -> (r: usize)
        ensures
            r == self.vkeys().len(),
    {
        self.vertex_map.len()
    }

    pub fn edge_count(&self) -> (r: usize)
        ensures
            r == self.ekeys().len(),
    {
        self.edge_map.len()
    }
}


impl DirectedGraph {
    /// Deletes an edge: removes it from both incident adjacency sets and
    /// from the edge map; fails with "no such edge" if absent.
    pub fn delete_edge(&mut self, edge_id: usize) -> (r: Result<(), String>)
        requires
            old(self).wf(),
        ensures
            final(self).wf(),
            !old(self).has_edge(edge_id) ==> (r matches Err(m) && m@ == "Delete Edge: No such edge"@)
                && *final(self) == *old(self),
            old(self).has_edge(edge_id) ==> r is Ok && final(self).vkeys() == old(self).vkeys()
                && final(self).next_edge_id == old(self).next_edge_id && (forall|e: usize|
                final(self).has_edge(e) <==> (old(self).has_edge(e) && e != edge_id)) && (forall|
                e: usize,
            |
                e != edge_id && old(self).has_edge(e) ==> final(self).edge_of(e) == old(
                    self,
                ).edge_of(e)) && (forall|x: usize, e: usize|
                final(self).outgoing_ids(x).contains(e) <==> (old(self).outgoing_ids(x).contains(
                    e,
                ) && e != edge_id)) && (forall|x: usize, e: usize|
                final(self).incoming_ids(x).contains(e) <==> (old(self).incoming_ids(x).contains(
                    e,
                ) && e != edge_id)),
    {
        let ghost g0 = *self;
        let ei = match self.efind(edge_id) {
            Some(i) => i,
            None => {
                let msg = "Delete Edge: No such edge".to_string();
                proof {
                    reveal_strlit("Delete Edge: No such edge");
                }
                return Err(msg);
            },
        };
        let e = self.edge_map[ei];
        proof {
            assert(g0.edge_of(edge_id) == e);
            assert(g0.has_vertex(e.source) && g0.has_vertex(e.dest));
        }
        let si = match self.vfind(e.source) {
            Some(i) => i,
            None => vstd::pervasive::unreached(),
        };
        let vm = vertex_mut(&mut self.vertex_map, si);
        vm.delete_outgoing(edge_id);
        let ghost g1 = *self;
        proof {
            let vm0 = g0.vertex_map@;
            let vm1 = g1.vertex_map@;
            assert forall|k: int| 0 <= k < vm1.len() implies g1.vkeys()[k] == g0.vkeys()[k] by {
                if k != si {
                    assert(vm1[k] == vm0[k]);
                }
            }
            assert(g1.vkeys() =~= g0.vkeys());
            assert forall|i: int| 0 <= i < vm1.len() implies (#[trigger] vm1[i]).wf() by {
                if i != si {
                    assert(vm1[i] == vm0[i]);
                }
            }
            assert forall|i: int, j: int|
                0 <= i < vm1.len() && 0 <= j < vm1[i].outgoing@.len() implies g1.has_edge(
                #[trigger] vm1[i].outgoing@[j],
            ) && g1.edge_of(vm1[i].outgoing@[j]).source == vm1[i].vertex_id by {
                let x = vm1[i].outgoing@[j];
                if i != si {
                    assert(vm1[i] == vm0[i]);
                } else {
                    assert(vm1[i].outgoing@.contains(x));
                    assert(vm0[i].outgoing@.contains(x));
                    let j0 = choose|j0: int|
                        0 <= j0 < vm0[i].outgoing@.len() && vm0[i].outgoing@[j0] == x;
                    assert(g0.has_edge(x) && g0.edge_of(x).source == vm0[i].vertex_id);
                }
            }
            assert forall|i: int, j: int|
                0 <= i < vm1.len() && 0 <= j < vm1[i].incoming@.len() implies g1.has_edge(
                #[trigger] vm1[i].incoming@[j],
            ) && g1.edge_of(vm1[i].incoming@[j]).dest == vm1[i].vertex_id by {
                if i != si {
                    assert(vm1[i] == vm0[i]);
                } else {
                    assert(vm1[i].incoming == vm0[i].incoming);
                }
            }
            assert(g1.wf());
        }
        let di = match self.vfind(e.dest) {
            Some(i) => i,
            None => vstd::pervasive::unreached(),
        };
        let vm2 = vertex_mut(&mut self.vertex_map, di);
        vm2.delete_incoming(edge_id);
        let ghost g2 = *self;
        proof {
            let vm0 = g0.vertex_map@;
            let vm1 = g1.vertex_map@;
            let vm2s = g2.vertex_map@;
            assert forall|k: int| 0 <= k < vm2s.len() implies g2.vkeys()[k] == g1.vkeys()[k] by {
                if k != di {
                    assert(vm2s[k] == vm1[k]);
                }
            }
            assert(g2.vkeys() =~= g0.vkeys());
            assert forall|i: int| 0 <= i < vm2s.len() implies (#[trigger] vm2s[i]).wf() by {
                if i != di {
                    assert(vm2s[i] == vm1[i]);
                }
            }
            assert forall|i: int, j: int|
                0 <= i < vm2s.len() && 0 <= j < vm2s[i].outgoing@.len() implies g2.has_edge(
                #[trigger] vm2s[i].outgoing@[j],
            ) && g2.edge_of(vm2s[i].outgoing@[j]).source == vm2s[i].vertex_id by {
                if i != di {
                    assert(vm2s[i] == vm1[i]);
                } else {
                    assert(vm2s[i].outgoing == vm1[i].outgoing);
                    assert(vm2s[i].vertex_id == vm1[i].vertex_id);
                }
            }
            assert forall|i: int, j: int|
                0 <= i < vm2s.len() && 0 <= j < vm2s[i].incoming@.len() implies g2.has_edge(
                #[trigger] vm2s[i].incoming@[j],
            ) && g2.edge_of(vm2s[i].incoming@[j]).dest == vm2s[i].vertex_id by {
                let x = vm2s[i].incoming@[j];
                if i != di {
                    assert(vm2s[i] == vm1[i]);
                } else {
                    assert(vm2s[i].incoming@.contains(x));
                    assert(vm1[i].incoming@.contains(x));
                    let j0 = choose|j0: int|
                        0 <= j0 < vm1[i].incoming@.len() && vm1[i].incoming@[j0] == x;
                    assert(g1.has_edge(x) && g1.edge_of(x).dest == vm1[i].vertex_id);
                }
            }
            assert(g2.wf());
            assert(!vm2s[si as int].outgoing@.contains(edge_id)) by {
                if si == di {
                } else {
                    assert(vm2s[si as int] == vm1[si as int]);
                }
            }
            assert(!vm2s[di as int].incoming@.contains(edge_id));
        }
        self.edge_map.remove(ei);
        proof {
            let g3 = *self;
            let em2 = g2.edge_map@;
            let em3 = g3.edge_map@;
            assert(em2 == g0.edge_map@);
            assert(em3 == em2.remove(ei as int));
            assert(g2.ekeys() == g0.ekeys());
            assert forall|k: int| 0 <= k < em3.len() implies g3.ekeys()[k] == (if k < ei {
                g0.ekeys()[k]
            } else {
                g0.ekeys()[k + 1]
            }) by {
                if k < ei {
                    assert(em3[k] == em2[k]);
                } else {
                    assert(em3[k] == em2[k + 1]);
                }
            }
            assert forall|a: int, b: int|
                0 <= a < b < em3.len() implies g3.ekeys()[a] < g3.ekeys()[b] by {}
            assert(strictly_sorted(g3.ekeys()));
            assert forall|x: usize| g3.has_edge(x) implies (g0.has_edge(x) && x != edge_id) by {
                let k = choose|k: int| 0 <= k < em3.len() && g3.ekeys()[k] == x;
                if k < ei {
                    assert(g0.ekeys()[k] == x);
                    assert(g0.ekeys()[k] < g0.ekeys()[ei as int]);
                } else {
                    assert(g0.ekeys()[k + 1] == x);
                    assert(g0.ekeys()[ei as int] < g0.ekeys()[k + 1]);
                }
                assert(g0.ekeys()[ei as int] == edge_id);
            }
            assert forall|x: usize| g0.has_edge(x) && x != edge_id implies g3.has_edge(x) by {
                let k = g0.eindex(x);
                assert(g0.edge_map@[k].edge_id == x);
                g0.lemma_eindex(x, k);
                g0.lemma_eindex(edge_id, ei as int);
                if k < ei {
                    assert(g3.ekeys()[k] == x);
                } else {
                    assert(k != ei);
                    assert(g3.ekeys()[k - 1] == x);
                }
            }
            assert forall|x: usize|
                x != edge_id && g0.has_edge(x) implies g3.edge_of(x) == g0.edge_of(x) by {
                let k = g0.eindex(x);
                assert(g0.edge_map@[k].edge_id == x);
                g0.lemma_eindex(edge_id, ei as int);
                if k < ei {
                    assert(em3[k] == em2[k]);
                    g3.lemma_eindex(x, k);
                } else {
                    assert(k != ei);
                    assert(em3[k - 1] == em2[k]);
                    g3.lemma_eindex(x, k - 1);
                }
            }
            assert forall|i: int, j: int|
                0 <= i < g3.vertex_map@.len() && 0 <= j
                    < g3.vertex_map@[i].outgoing@.len() implies g3.has_edge(
                #[trigger] g3.vertex_map@[i].outgoing@[j],
            ) && g3.edge_of(g3.vertex_map@[i].outgoing@[j]).source
                == g3.vertex_map@[i].vertex_id by {
                let x = g3.vertex_map@[i].outgoing@[j];
                assert(g2.has_edge(x) && g2.edge_of(x).source == g2.vertex_map@[i].vertex_id);
                assert(x != edge_id) by {
                    if x == edge_id {
                        assert(g2.edge_of(edge_id) == g0.edge_of(edge_id));
                        assert(g2.vertex_map@[i].vertex_id == e.source);
                        assert(g2.vertex_map@[si as int].vertex_id == e.source);
                        assert(g2.vkeys()[i] == e.source && g2.vkeys()[si as int] == e.source);
                        if i < si {
                            assert(g2.vkeys()[i] < g2.vkeys()[si as int]);
                        } else if si < i {
                            assert(g2.vkeys()[si as int] < g2.vkeys()[i]);
                        }
                        assert(i == si);
                        assert(g2.vertex_map@[i].outgoing@.contains(x));
                    }
                }
            }
            assert forall|i: int, j: int|
                0 <= i < g3.vertex_map@.len() && 0 <= j
                    < g3.vertex_map@[i].incoming@.len() implies g3.has_edge(
                #[trigger] g3.vertex_map@[i].incoming@[j],
            ) && g3.edge_of(g3.vertex_map@[i].incoming@[j]).dest
                == g3.vertex_map@[i].vertex_id by {
                let x = g3.vertex_map@[i].incoming@[j];
                assert(g2.has_edge(x) && g2.edge_of(x).dest == g2.vertex_map@[i].vertex_id);
                assert(x != edge_id) by {
                    if x == edge_id {
                        assert(g2.edge_of(edge_id) == g0.edge_of(edge_id));
                        assert(g2.vertex_map@[i].vertex_id == e.dest);
                        assert(g2.vertex_map@[di as int].vertex_id == e.dest);
                        assert(g2.vkeys()[i] == e.dest && g2.vkeys()[di as int] == e.dest);
                        if i < di {
                            assert(g2.vkeys()[i] < g2.vkeys()[di as int]);
                        } else if di < i {
                            assert(g2.vkeys()[di as int] < g2.vkeys()[i]);
                        }
                        assert(i == di);
                        assert(g2.vertex_map@[i].incoming@.contains(x));
                    }
                }
            }
            assert(g3.wf());
            assert forall|x: usize, ee: usize|
                g3.outgoing_ids(x).contains(ee) <==> (g0.outgoing_ids(x).contains(ee) && ee
                    != edge_id) by {
                if g0.has_vertex(x) {
                    let i = g0.vindex(x);
                    assert(g0.vertex_map@[i].vertex_id == x);
                    assert(g3.vertex_map@[i].vertex_id == x);
                    g0.lemma_vindex(x, i);
                    g3.lemma_vindex(x, i);
                    if i == si {
                        assert(g3.vertex_map@[i].outgoing == g2.vertex_map@[i].outgoing);
                        assert(g2.vertex_map@[i].outgoing@.contains(ee) <==> (
                        g0.vertex_map@[i].outgoing@.contains(ee) && ee != edge_id));
                    } else {
                        assert(g3.vertex_map@[i].outgoing == g0.vertex_map@[i].outgoing);
                        if g0.vertex_map@[i].outgoing@.contains(ee) && ee == edge_id {
                            let j0 = choose|j0: int|
                                0 <= j0 < g0.vertex_map@[i].outgoing@.len()
                                    && g0.vertex_map@[i].outgoing@[j0] == ee;
                            assert(g0.edge_of(edge_id).source == g0.vertex_map@[i].vertex_id);
                            assert(g0.vertex_map@[si as int].vertex_id == e.source);
                            assert(g0.vkeys()[i] == e.source && g0.vkeys()[si as int]
                                == e.source);
                            if i < si {
                                assert(g0.vkeys()[i] < g0.vkeys()[si as int]);
                            } else if si < i {
                                assert(g0.vkeys()[si as int] < g0.vkeys()[i]);
                            }
                            assert(false);
                        }
                    }
                } else {
                    assert(!g3.has_vertex(x));
                }
            }
            assert forall|x: usize, ee: usize|
                g3.incoming_ids(x).contains(ee) <==> (g0.incoming_ids(x).contains(ee) && ee
                    != edge_id) by {
                if g0.has_vertex(x) {
                    let i = g0.vindex(x);
                    assert(g0.vertex_map@[i].vertex_id == x);
                    assert(g3.vertex_map@[i].vertex_id == x);
                    g0.lemma_vindex(x, i);
                    g3.lemma_vindex(x, i);
                    if i == di {
                        assert(g3.vertex_map@[i].incoming == g2.vertex_map@[i].incoming);
                        assert(g1.vertex_map@[i].incoming == g0.vertex_map@[i].incoming);
                        assert(g2.vertex_map@[i].incoming@.contains(ee) <==> (
                        g1.vertex_map@[i].incoming@.contains(ee) && ee != edge_id));
                    } else {
                        assert(g3.vertex_map@[i].incoming == g0.vertex_map@[i].incoming);
                        if g0.vertex_map@[i].incoming@.contains(ee) && ee == edge_id {
                            let j0 = choose|j0: int|
                                0 <= j0 < g0.vertex_map@[i].incoming@.len()
                                    && g0.vertex_map@[i].incoming@[j0] == ee;
                            assert(g0.edge_of(edge_id).dest == g0.vertex_map@[i].vertex_id);
                            assert(g0.vertex_map@[di as int].vertex_id == e.dest);
                            assert(g0.vkeys()[i] == e.dest && g0.vkeys()[di as int] == e.dest);
                            if i < di {
                                assert(g0.vkeys()[i] < g0.vkeys()[di as int]);
                            } else if di < i {
                                assert(g0.vkeys()[di as int] < g0.vkeys()[i]);
                            }
                            assert(false);
                        }
                    }
                } else {
                    assert(!g3.has_vertex(x));
                }
            }
        }
        Ok(())
    }
}

} // verus!
