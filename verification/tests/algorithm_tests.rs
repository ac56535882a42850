use shortpath::bellman::Bellman;
use shortpath::dijkstra::Dijkstra;
use shortpath::dirgraph::DirectedGraph;
use shortpath::johnson::Johnson;
use shortpath::minmax::MinMax;

fn setup_basic(g: &mut DirectedGraph) {
    assert_eq!(g.add_edge(1, 2, 12), Some(1));
    assert_eq!(g.add_edge(1, 3, -13), Some(2));
    assert_eq!(g.add_edge(2, 3, 23), Some(3));
    assert_eq!(g.add_edge(2, 4, -24), Some(4));
    assert_eq!(g.add_edge(3, 4, 34), Some(5));
    assert_eq!(g.add_edge(4, 5, -45), Some(6));
    assert_eq!(g.get_outgoing_vertex(1), &[2, 3]);
    assert_eq!(g.get_outgoing_vertex(2), &[3, 4]);
    assert_eq!(g.get_outgoing_vertex(3), &[4]);
    assert_eq!(g.get_outgoing_vertex(4), &[5]);
}

#[test]
fn johnson_basic() {
    let mut g = DirectedGraph::new();
    setup_basic(&mut g);
    let mut j = Johnson::new(g);
    j.calculate_shortest_paths();
    assert!(!j.has_negative_cycle());
}

fn run_dijkstra(g: &DirectedGraph, start: usize) -> Dijkstra {
    let mut d = Dijkstra::new(start);
    for id in g.vertex_iter() {
        d.initialize_vertex(id);
    }
    d.calculate_shortest_paths(g, start);
    d
}

fn run_bellman(g: &DirectedGraph, start: usize) -> Bellman {
    let mut b = Bellman::new(largest_vertex(g));
    b.calculate_shortest_paths(g, start);
    b
}

fn largest_vertex(g: &DirectedGraph) -> usize {
    let mut m: usize = 0;
    for id in g.vertex_iter() {
        if id > m {
            m = id;
        }
    }
    m
}

/// Example 1: Dijkstra from 1 on (1-2,w1), (1-3,w4), (2-3,w1).
#[test]
fn dijkstra_example_distances_and_path() {
    let mut g = DirectedGraph::new();
    assert_eq!(g.add_edge(1, 2, 1), Some(1));
    assert_eq!(g.add_edge(1, 3, 4), Some(2));
    assert_eq!(g.add_edge(2, 3, 1), Some(3));
    let d = run_dijkstra(&g, 1);
    assert_eq!(d.get_shortest_path_distance(1), MinMax::Value(0));
    assert_eq!(d.get_shortest_path_distance(2), MinMax::Value(1));
    assert_eq!(d.get_shortest_path_distance(3), MinMax::Value(2));
    let paths = d.get_shortest_paths();
    let to3 = paths.iter().find(|i| i.dest == 3).expect("dest 3 missing");
    assert_eq!(to3.path, vec![1, 2, 3]);
    assert_eq!(to3.path_len, 3);
}

/// Example 2: Bellman-Ford from 1 on (1-2,w1), (2-1,w-5) reports the
/// negative cycle.
#[test]
fn bellman_negative_cycle_detected() {
    let mut g = DirectedGraph::new();
    assert_eq!(g.add_edge(1, 2, 1), Some(1));
    assert_eq!(g.add_edge(2, 1, -5), Some(2));
    let b = run_bellman(&g, 1);
    assert!(b.has_negative_cycle());
}

/// A graph without a reachable negative cycle never raises the flag.
#[test]
fn bellman_no_negative_cycle() {
    let mut g = DirectedGraph::new();
    setup_basic(&mut g);
    for s in 1..=5 {
        let b = run_bellman(&g, s);
        assert!(!b.has_negative_cycle());
    }
}

/// Bellman-Ford distances on the negative-weight example.
#[test]
fn bellman_distances() {
    let mut g = DirectedGraph::new();
    setup_basic(&mut g);
    let b = run_bellman(&g, 2);
    assert_eq!(b.get_shortest_path_distance(4), MinMax::Value(-24));
    assert_eq!(b.get_shortest_path_distance(5), MinMax::Value(-69));
    assert_eq!(b.get_shortest_path_distance(1), MinMax::Max);
    assert_eq!(b.get_shortest_path_distance(99), MinMax::NA);
}

/// Running Bellman-Ford twice from the same source on an unmodified graph
/// yields identical distance tables and predecessor trees.
#[test]
fn bellman_idempotent() {
    let mut g = DirectedGraph::new();
    setup_basic(&mut g);
    let b1 = run_bellman(&g, 1);
    let b2 = run_bellman(&g, 1);
    assert_eq!(b1.get_shortest_path_distances(), b2.get_shortest_path_distances());
    assert_eq!(b1.last_iteration, b2.last_iteration);
    let dests: Vec<usize> = vec![1, 2, 3, 4, 5];
    let p1 = b1.get_shortest_paths(dests.clone());
    let p2 = b2.get_shortest_paths(dests);
    assert_eq!(p1.len(), p2.len());
    for k in 0..p1.len() {
        assert_eq!(p1[k].0, p2[k].0);
        assert_eq!(p1[k].1, p2[k].1);
        assert_eq!(p1[k].2, p2[k].2);
    }
}

/// Across iterations, each vertex's recorded distance never increases.
#[test]
fn bellman_rows_nonincreasing() {
    let mut g = DirectedGraph::new();
    setup_basic(&mut g);
    let b = run_bellman(&g, 1);
    let width = 6;
    for k in 1..=b.last_iteration {
        let prev = b.distances.get_row(k - 1);
        let cur = b.distances.get_row(k);
        for v in 0..width {
            // cur[v] <= prev[v] in the lattice order
            assert!(!prev[v].lt(&cur[v]));
        }
    }
}

/// Every reconstructed Bellman-Ford path's edges exist in the graph and
/// its summed weight equals the reported distance.
#[test]
fn bellman_paths_match_distances() {
    let mut g = DirectedGraph::new();
    setup_basic(&mut g);
    let b = run_bellman(&g, 1);
    let paths = b.get_shortest_paths(vec![2, 3, 4, 5]);
    for (dest, path, has_cycle) in paths {
        assert!(!has_cycle);
        assert_eq!(*path.last().unwrap(), dest);
        assert_eq!(path[0], 1);
        let mut total: i64 = 0;
        for w in path.windows(2) {
            let weight = g.get_outgoing_connection_weight(w[0], w[1]);
            assert!(weight.is_some(), "edge missing on path");
            total += weight.unwrap();
        }
        assert_eq!(b.get_shortest_path_distance(dest), MinMax::Value(total));
    }
}

/// Every reconstructed Dijkstra path's edges exist in the graph and its
/// summed weight equals the reported distance.
#[test]
fn dijkstra_paths_match_distances() {
    let mut g = DirectedGraph::new();
    assert_eq!(g.add_edge(1, 2, 1), Some(1));
    assert_eq!(g.add_edge(1, 3, 4), Some(2));
    assert_eq!(g.add_edge(2, 3, 1), Some(3));
    assert_eq!(g.add_edge(3, 4, 7), Some(4));
    let d = run_dijkstra(&g, 1);
    for info in d.get_shortest_paths() {
        if info.distance == MinMax::Max {
            continue;
        }
        let mut total: i64 = 0;
        for w in info.path.windows(2) {
            let weight = g.get_outgoing_connection_weight(w[0], w[1]);
            assert!(weight.is_some(), "edge missing on path");
            total += weight.unwrap();
        }
        assert_eq!(info.distance, MinMax::Value(total));
    }
}

/// Example 3: Johnson's single shortest-shortest path matches a direct
/// per-vertex Bellman-Ford computation.
#[test]
fn johnson_matches_bellman() {
    let mut g = DirectedGraph::new();
    setup_basic(&mut g);
    let mut j = Johnson::new(g);
    let best = j.find_shortest_shortest_path().expect("johnson found no path");
    assert!(!j.has_negative_cycle());

    // Direct per-vertex Bellman-Ford on the same edges.
    let mut g2 = DirectedGraph::new();
    setup_basic(&mut g2);
    let mut best_bf: Option<(usize, usize, i64)> = None;
    for s in 1..=5usize {
        let b = run_bellman(&g2, s);
        for t in 1..=5usize {
            if t == s {
                continue;
            }
            if let MinMax::Value(x) = b.get_shortest_path_distance(t) {
                if best_bf.is_none() || x < best_bf.unwrap().2 {
                    best_bf = Some((s, t, x));
                }
            }
        }
    }
    let (bs, bt, bx) = best_bf.unwrap();
    assert_eq!(best.distance, MinMax::Value(bx));
    assert_eq!((best.source, best.dest), (bs, bt));
    assert_eq!(best.distance, MinMax::Value(-69));
}

/// On a cycle-free graph, Bellman-Ford and Johnson-via-Dijkstra agree on
/// every pairwise distance.
#[test]
fn johnson_agrees_with_bellman_pairwise() {
    let mut g = DirectedGraph::new();
    setup_basic(&mut g);
    let mut j = Johnson::new(g);
    j.calculate_shortest_paths();
    assert!(!j.has_negative_cycle());

    let mut g2 = DirectedGraph::new();
    setup_basic(&mut g2);
    for (s, infos) in j.results_iter() {
        let b = run_bellman(&g2, *s);
        for info in infos {
            if info.dest == 0 {
                continue;
            }
            assert_eq!(
                info.distance,
                b.get_shortest_path_distance(info.dest),
                "disagreement for pair ({}, {})",
                s,
                info.dest
            );
        }
    }
}

/// The stored tables' single shortest entry matches the pruning query.
#[test]
fn johnson_shortest_shortest_path_table() {
    let mut g = DirectedGraph::new();
    setup_basic(&mut g);
    let mut j = Johnson::new(g);
    j.calculate_shortest_paths();
    let (dist, path) = j.shortest_shortest_path();
    assert_eq!(dist, MinMax::Value(-69));
    assert_eq!(path, vec![2, 4, 5]);
}

/// Johnson refuses to produce results on a negative cycle.
#[test]
fn johnson_negative_cycle_no_results() {
    let mut g = DirectedGraph::new();
    assert_eq!(g.add_edge(1, 2, 1), Some(1));
    assert_eq!(g.add_edge(2, 1, -5), Some(2));
    let mut j = Johnson::new(g);
    j.calculate_shortest_paths();
    assert!(j.has_negative_cycle());
    assert_eq!(j.results_iter().len(), 0);
    let mut g2 = DirectedGraph::new();
    assert_eq!(g2.add_edge(1, 2, 1), Some(1));
    assert_eq!(g2.add_edge(2, 1, -5), Some(2));
    let mut j2 = Johnson::new(g2);
    assert!(j2.find_shortest_shortest_path().is_none());
    assert!(j2.has_negative_cycle());
}

/// The lattice ordering: Min < Value < Max < NA, values by magnitude.
#[test]
fn minmax_ordering() {
    let min: MinMax<i64> = MinMax::Min;
    let v1: MinMax<i64> = MinMax::Value(1);
    let v2: MinMax<i64> = MinMax::Value(2);
    let max: MinMax<i64> = MinMax::Max;
    let na: MinMax<i64> = MinMax::NA;
    assert!(min.lt(&v1));
    assert!(v1.lt(&v2));
    assert!(!v2.lt(&v1));
    assert!(v2.lt(&max));
    assert!(max.lt(&na));
    assert!(!na.lt(&max));
    assert!(!v1.lt(&v1));
}

/// Lattice arithmetic: finite values add and subtract, Max absorbs.
#[test]
fn minmax_arithmetic() {
    let a: MinMax<i64> = MinMax::Value(5);
    let b: MinMax<i64> = MinMax::Value(-3);
    assert_eq!(a.plus(b), MinMax::Value(2));
    assert_eq!(a.minus(b), MinMax::Value(8));
    assert_eq!(MinMax::Max.plus(a), MinMax::Max);
    assert_eq!(a.plus(MinMax::Max), MinMax::Max);
    assert_eq!(MinMax::Max.minus(a), MinMax::Max);
}

/// Reweighting correctness on a concrete run: for every edge (u,v,w) and
/// the potentials h from the super-source, w + h(u) - h(v) >= 0.
#[test]
fn reweighting_nonnegative() {
    let mut g = DirectedGraph::new();
    setup_basic(&mut g);
    let j = Johnson::new(g);
    // potentials from the super-source over the whole working graph
    let mut b = Bellman::new(j.num_vertex);
    b.calculate_shortest_paths(&j.graph, 0);
    assert!(!b.has_negative_cycle());
    let h = b.get_shortest_path_distances();
    for e in j.graph.edge_iter() {
        if e.source == 0 {
            continue;
        }
        if let (MinMax::Value(hu), MinMax::Value(hv)) = (h[e.source], h[e.dest]) {
            assert!(e.weight + hu - hv >= 0, "negative reweighted edge");
        } else {
            panic!("potential not finite");
        }
    }
}

/// The distances listing names exactly the finalized vertices, ascending.
#[test]
fn dijkstra_distance_listing() {
    let mut g = DirectedGraph::new();
    assert_eq!(g.add_edge(1, 2, 1), Some(1));
    assert_eq!(g.add_edge(1, 3, 4), Some(2));
    assert_eq!(g.add_edge(2, 3, 1), Some(3));
    let d = run_dijkstra(&g, 1);
    let listing = d.get_shortest_path_distances();
    assert_eq!(
        listing,
        vec![(1, MinMax::Value(0)), (2, MinMax::Value(1)), (3, MinMax::Value(2))]
    );
}

/// Dijkstra with an uninitialized starting vertex leaves the engine alone.
#[test]
fn dijkstra_missing_start() {
    let mut g = DirectedGraph::new();
    assert_eq!(g.add_edge(1, 2, 1), Some(1));
    let mut d = Dijkstra::new(9);
    for id in g.vertex_iter() {
        d.initialize_vertex(id);
    }
    d.calculate_shortest_paths(&g, 9);
    assert_eq!(d.get_shortest_path_distance(1), MinMax::NA);
    assert_eq!(d.get_shortest_path_distance(2), MinMax::NA);
}
