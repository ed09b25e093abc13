//! Graph generation: greedy spaced placement of candidate positions, an edge
//! between every pair closer than the connect threshold, and connectivity
//! repair that joins the closest reached/unreached pair until a single
//! component remains.

use vstd::prelude::*;

use crate::geom::{dist_sq, dist_sq_exec, in_bounds, Pos};
use crate::graph::{
    count_trues, lemma_count_trues_all, lemma_count_trues_full, lemma_count_trues_strict,
    ComputerGraph, ComputerNode,
};
use crate::rng::random_range_i64;
use crate::{CONNECT_DIST, COORD_LIMIT, DEFAULT_NODE_COUNT, MIN_SPACING, PLACEMENT_ATTEMPTS};

verus! {

/// The candidate keeps the minimum spacing from every accepted position.
pub open spec fn far_from_all(acc: Seq<Pos>, c: Pos) -> bool {
    forall|i: int| 0 <= i < acc.len() ==> dist_sq(#[trigger] acc[i], c) >= MIN_SPACING * MIN_SPACING
}

/// Greedy spaced placement: scan the candidates in order, accept each one
/// that keeps the minimum spacing from everything accepted so far, and stop
/// once `target` positions stand.
pub open spec fn greedy_place(acc: Seq<Pos>, samples: Seq<Pos>, target: int) -> Seq<Pos>
    decreases samples.len(),
{
    if samples.len() == 0 || acc.len() >= target {
        acc
    } else {
        let c = samples[0];
        let acc2 = if far_from_all(acc, c) {
            acc.push(c)
        } else {
            acc
        };
        greedy_place(acc2, samples.subrange(1, samples.len() as int), target)
    }
}

/// Accept candidate positions by the greedy spacing rule.
pub fn place_positions(samples: &Vec<Pos>, target: usize) -> (acc: Vec<Pos>)
    requires
        forall|i: int| 0 <= i < samples@.len() ==> in_bounds(#[trigger] samples@[i]),
    ensures
        acc@ == greedy_place(Seq::<Pos>::empty(), samples@, target as int),
        acc@.len() <= target,
        forall|i: int| 0 <= i < acc@.len() ==> in_bounds(#[trigger] acc@[i]),
        forall|i: int, j: int|
            0 <= i < acc@.len() && 0 <= j < acc@.len() && i != j ==> #[trigger] dist_sq(
                acc@[i],
                acc@[j],
            ) >= MIN_SPACING * MIN_SPACING,
{
    let mut acc: Vec<Pos> = Vec::new();
    let mut idx: usize = 0;
    proof {
        assert(samples@.subrange(0, samples@.len() as int) =~= samples@);
    }
    while idx < samples.len() && acc.len() < target
        invariant
            idx <= samples@.len(),
            acc@.len() <= target,
            forall|i: int| 0 <= i < samples@.len() ==> in_bounds(#[trigger] samples@[i]),
            forall|i: int| 0 <= i < acc@.len() ==> in_bounds(#[trigger] acc@[i]),
            forall|i: int, j: int|
                0 <= i < acc@.len() && 0 <= j < acc@.len() && i != j ==> #[trigger] dist_sq(
                    acc@[i],
                    acc@[j],
                ) >= MIN_SPACING * MIN_SPACING,
            greedy_place(acc@, samples@.subrange(idx as int, samples@.len() as int), target as int)
                == greedy_place(Seq::<Pos>::empty(), samples@, target as int),
        decreases samples@.len() - idx,
    {
        let ghost rest = samples@.subrange(idx as int, samples@.len() as int);
        let ghost acc0 = acc@;
        let c = samples[idx];
        let mut ok = true;
        let mut j: usize = 0;
        while j < acc.len()
            invariant
                j <= acc@.len(),
                c == samples@[idx as int],
                idx < samples@.len(),
                forall|i: int| 0 <= i < samples@.len() ==> in_bounds(#[trigger] samples@[i]),
                forall|i: int| 0 <= i < acc@.len() ==> in_bounds(#[trigger] acc@[i]),
                ok <==> forall|i: int|
                    0 <= i < j ==> dist_sq(#[trigger] acc@[i], c) >= MIN_SPACING * MIN_SPACING,
            decreases acc@.len() - j,
        {
            if dist_sq_exec(acc[j], c) < MIN_SPACING * MIN_SPACING {
                ok = false;
            }
            j = j + 1;
        }
        proof {
            assert(rest[0] == c);
            assert(rest.subrange(1, rest.len() as int) =~= samples@.subrange(
                idx as int + 1,
                samples@.len() as int,
            ));
            assert(ok <==> far_from_all(acc0, c));
        }
        if ok {
            acc.push(c);
            proof {
                assert(acc@ == acc0.push(c));
                assert forall|i: int, j2: int|
                    0 <= i < acc@.len() && 0 <= j2 < acc@.len() && i != j2 implies #[trigger] dist_sq(
                    acc@[i],
                    acc@[j2],
                ) >= MIN_SPACING * MIN_SPACING by {
                    if i == acc@.len() - 1 {
                        assert(dist_sq(acc0[j2], c) >= MIN_SPACING * MIN_SPACING);
                        crate::geom::lemma_dist_sq_symmetric(acc0[j2], c);
                    } else if j2 == acc@.len() - 1 {
                        assert(dist_sq(acc0[i], c) >= MIN_SPACING * MIN_SPACING);
                    }
                }
            }
        }
        idx = idx + 1;
    }
    proof {
        let rest = samples@.subrange(idx as int, samples@.len() as int);
        if idx < samples@.len() {
            assert(acc@.len() >= target);
        } else {
            assert(rest.len() == 0);
        }
        assert(greedy_place(acc@, rest, target as int) == acc@);
    }
    acc
}

/// Which unordered pairs a row-by-row scan has decided by step `(i, j)`.
pub open spec fn pair_scanned(a: int, b: int, i: int, j: int) -> bool {
    let lo = if a < b {
        a
    } else {
        b
    };
    let hi = if a < b {
        b
    } else {
        a
    };
    lo < i || (lo == i && hi < j)
}

/// Both endpoints lie strictly within the connect threshold.
pub open spec fn near_pair(positions: Seq<Pos>, a: int, b: int) -> bool {
    &&& 0 <= a < positions.len()
    &&& 0 <= b < positions.len()
    &&& a != b
    &&& dist_sq(positions[a], positions[b]) < CONNECT_DIST * CONNECT_DIST
}

/// Build the proximity graph over accepted positions: an edge joins exactly
/// the pairs that lie strictly within the connect threshold.
pub fn connect_near(positions: &Vec<Pos>) -> (g: ComputerGraph)
    requires
        positions@.len() <= 100_000,
        forall|i: int| 0 <= i < positions@.len() ==> in_bounds(#[trigger] positions@[i]),
        forall|i: int, j: int|
            0 <= i < positions@.len() && 0 <= j < positions@.len() && i != j ==> #[trigger] dist_sq(
                positions@[i],
                positions@[j],
            ) >= MIN_SPACING * MIN_SPACING,
    ensures
        g.wf(),
        g.nodes@.len() == positions@.len(),
        forall|i: int| 0 <= i < g.n() ==> (#[trigger] g.nodes@[i].position) == positions@[i],
        forall|a: int, b: int| #[trigger] g.edge(a, b) <==> near_pair(positions@, a, b),
{
    let n = positions.len();
    let mut nodes: Vec<ComputerNode> = Vec::new();
    let mut k: usize = 0;
    while k < n
        invariant
            k <= n,
            n == positions@.len(),
            nodes@.len() == k,
            forall|i: int| 0 <= i < k ==> (#[trigger] nodes@[i].position) == positions@[i],
        decreases n - k,
    {
        nodes.push(ComputerNode { position: positions[k] });
        k = k + 1;
    }
    let mut adj: Vec<Vec<usize>> = Vec::new();
    let mut k2: usize = 0;
    while k2 < n
        invariant
            k2 <= n,
            adj@.len() == k2,
            forall|i: int| 0 <= i < k2 ==> (#[trigger] adj@[i]@).len() == 0,
        decreases n - k2,
    {
        adj.push(Vec::new());
        k2 = k2 + 1;
    }
    let mut g = ComputerGraph { nodes, adj };
    proof {
        assert forall|a: int, b: int| !(#[trigger] g.edge(a, b)) by {
            if 0 <= a < g.n() && 0 <= b < g.n() {
                assert(g.adj[a]@.len() == 0);
            }
        }
        assert(g.wf());
    }
    let mut i: usize = 0;
    while i < n
        invariant
            i <= n,
            n == positions@.len(),
            forall|t: int| 0 <= t < positions@.len() ==> in_bounds(#[trigger] positions@[t]),
            g.wf(),
            g.nodes@.len() == n,
            forall|t: int| 0 <= t < g.n() ==> (#[trigger] g.nodes@[t].position) == positions@[t],
            forall|a: int, b: int|
                #[trigger] g.edge(a, b) <==> near_pair(positions@, a, b) && pair_scanned(
                    a,
                    b,
                    i as int,
                    i as int + 1,
                ),
        decreases n - i,
    {
        let mut j: usize = i + 1;
        while j < n
            invariant
                i < n,
                i < j <= n,
                n == positions@.len(),
                forall|t: int| 0 <= t < positions@.len() ==> in_bounds(#[trigger] positions@[t]),
                g.wf(),
                g.nodes@.len() == n,
                forall|t: int| 0 <= t < g.n() ==> (#[trigger] g.nodes@[t].position) == positions@[t],
                forall|a: int, b: int|
                    #[trigger] g.edge(a, b) <==> near_pair(positions@, a, b) && pair_scanned(
                        a,
                        b,
                        i as int,
                        j as int,
                    ),
            decreases n - j,
        {
            let d = dist_sq_exec(positions[i], positions[j]);
            let ghost gb = g;
            if d < CONNECT_DIST * CONNECT_DIST {
                proof {
                    assert(!gb.edge(i as int, j as int));
                }
                g.add_edge(i, j);
            }
            proof {
                assert forall|a: int, b: int|
                    #[trigger] g.edge(a, b) <==> near_pair(positions@, a, b) && pair_scanned(
                        a,
                        b,
                        i as int,
                        j as int + 1,
                    ) by {
                    crate::geom::lemma_dist_sq_symmetric(positions@[i as int], positions@[j as int]);
                }
            }
            j = j + 1;
        }
        proof {
            assert forall|a: int, b: int|
                #[trigger] g.edge(a, b) <==> near_pair(positions@, a, b) && pair_scanned(
                    a,
                    b,
                    i as int + 1,
                    i as int + 2,
                ) by {}
        }
        i = i + 1;
    }
    proof {
        assert forall|a: int, b: int|
            #[trigger] g.edge(a, b) <==> near_pair(positions@, a, b) by {
            if near_pair(positions@, a, b) {
                assert(pair_scanned(a, b, n as int, n as int + 1));
            }
        }
    }
    g
}

/// The pair `(u, v)` joins node 0's component to the rest of the graph at
/// minimal straight-line distance: `u` is reached from node 0, `v` is not,
/// and no reached/unreached pair lies closer.
pub open spec fn closest_cross_edge(g: ComputerGraph, u: int, v: int) -> bool {
    &&& 0 <= u < g.n()
    &&& 0 <= v < g.n()
    &&& g.reachable(0, u)
    &&& !g.reachable(0, v)
    &&& forall|a: int, b: int|
        0 <= a < g.n() && 0 <= b < g.n() && g.reachable(0, a) && !g.reachable(0, b) ==> dist_sq(
            g.nodes@[u].position,
            g.nodes@[v].position,
        ) <= #[trigger] dist_sq(g.nodes@[a].position, g.nodes@[b].position)
}

/// One connectivity-repair step: `g2` is `g1` plus exactly one undirected
/// edge, and that edge joins the closest reached/unreached pair of `g1`.
pub open spec fn repair_step(g1: ComputerGraph, g2: ComputerGraph) -> bool {
    exists|u: int, v: int|
        {
            &&& #[trigger] closest_cross_edge(g1, u, v)
            &&& g2.nodes == g1.nodes
            &&& forall|a: int, b: int|
                g2.edge(a, b) <==> g1.edge(a, b) || (a == u && b == v) || (a == v && b == u)
        }
}

/// Consecutive graphs of the sequence are single repair steps.
pub open spec fn repair_chain(gs: Seq<ComputerGraph>) -> bool {
    forall|i: int| 0 <= i < gs.len() - 1 ==> repair_step(#[trigger] gs[i], gs[i + 1])
}

/// `gs` records how repair turned `g0` into `g1`: one closest-pair edge at
/// a time.
pub open spec fn repair_trace(g0: ComputerGraph, g1: ComputerGraph, gs: Seq<ComputerGraph>) -> bool {
    &&& gs.len() >= 1
    &&& gs[0] == g0
    &&& gs[gs.len() - 1] == g1
    &&& repair_chain(gs)
}

/// `g0` is the proximity graph over the placed positions: one node per
/// position, an edge exactly between the near pairs.
pub open spec fn proximity_graph_of(g0: ComputerGraph, placed: Seq<Pos>) -> bool {
    &&& g0.nodes@.len() == placed.len()
    &&& forall|i: int| 0 <= i < placed.len() ==> (#[trigger] g0.nodes@[i].position) == placed[i]
    &&& forall|a: int, b: int| #[trigger] g0.edge(a, b) <==> near_pair(placed, a, b)
}

/// `gs` explains a generated graph: it starts at the proximity graph over
/// the placed positions and reaches `g1` by closest-pair repair steps.
pub open spec fn generation_trace(
    placed: Seq<Pos>,
    g1: ComputerGraph,
    gs: Seq<ComputerGraph>,
) -> bool {
    &&& gs.len() >= 1
    &&& proximity_graph_of(gs[0], placed)
    &&& gs[gs.len() - 1] == g1
    &&& repair_chain(gs)
}

/// Among all pairs joining the mask's inside to its outside, return one at
/// minimal squared distance (the inside holds node 0; the outside is
/// nonempty because the count falls short of the node total).
pub fn closest_cross_pair(g: &ComputerGraph, mask: &Vec<bool>) -> (r: (usize, usize))
    requires
        g.wf(),
        mask@.len() == g.n(),
        g.n() >= 1,
        mask@[0],
        count_trues(mask@) < g.n(),
    ensures
        (r.0 as int) < g.n(),
        (r.1 as int) < g.n(),
        mask@[r.0 as int],
        !mask@[r.1 as int],
        forall|u: int, v: int|
            0 <= u < g.n() && 0 <= v < g.n() && mask@[u] && !mask@[v] ==> dist_sq(
                g.nodes@[r.0 as int].position,
                g.nodes@[r.1 as int].position,
            ) <= #[trigger] dist_sq(g.nodes@[u].position, g.nodes@[v].position),
{
    let n = g.nodes.len();
    let mut found = false;
    let mut best_u: usize = 0;
    let mut best_v: usize = 0;
    let mut best_d: i64 = 0;
    let mut u: usize = 0;
    while u < n
        invariant
            u <= n,
            n == g.n(),
            g.wf(),
            mask@.len() == g.n(),
            found ==> (best_u as int) < g.n() && (best_v as int) < g.n() && mask@[best_u as int]
                && !mask@[best_v as int] && best_d == dist_sq(
                g.nodes@[best_u as int].position,
                g.nodes@[best_v as int].position,
            ),
            found ==> forall|a: int, b: int|
                0 <= a < u && 0 <= b < g.n() && mask@[a] && !mask@[b] ==> best_d <= #[trigger] dist_sq(
                    g.nodes@[a].position,
                    g.nodes@[b].position,
                ),
            !found ==> forall|a: int, b: int|
                0 <= a < u && 0 <= b < g.n() ==> !(mask@[a] && !mask@[b]),
        decreases n - u,
    {
        if mask[u] {
            let mut v: usize = 0;
            while v < n
                invariant
                    v <= n,
                    u < n,
                    n == g.n(),
                    g.wf(),
                    mask@.len() == g.n(),
                    mask@[u as int],
                    found ==> (best_u as int) < g.n() && (best_v as int) < g.n() && mask@[best_u as int]
                        && !mask@[best_v as int] && best_d == dist_sq(
                        g.nodes@[best_u as int].position,
                        g.nodes@[best_v as int].position,
                    ),
                    found ==> forall|a: int, b: int|
                        0 <= a < u && 0 <= b < g.n() && mask@[a] && !mask@[b] ==> best_d
                            <= #[trigger] dist_sq(g.nodes@[a].position, g.nodes@[b].position),
                    found ==> forall|b: int|
                        0 <= b < v && !mask@[b] ==> best_d <= #[trigger] dist_sq(
                            g.nodes@[u as int].position,
                            g.nodes@[b].position,
                        ),
                    !found ==> forall|a: int, b: int|
                        0 <= a < u && 0 <= b < g.n() ==> !(mask@[a] && !mask@[b]),
                    !found ==> forall|b: int| 0 <= b < v ==> mask@[b],
                decreases n - v,
            {
                if !mask[v] {
                    let d = dist_sq_exec(g.nodes[u].position, g.nodes[v].position);
                    if !found || d < best_d {
                        found = true;
                        best_u = u;
                        best_v = v;
                        best_d = d;
                    }
                }
                v = v + 1;
            }
        }
        u = u + 1;
    }
    proof {
        if !found {
            assert forall|b: int| 0 <= b < g.n() implies mask@[b] by {
                assert(!(mask@[0] && !mask@[b]));
            }
            lemma_count_trues_all(mask@);
            assert(false);
        }
    }
    (best_u, best_v)
}

/// Add edges joining the closest reached/unreached pair until node 0 reaches
/// the whole graph.  Existing edges and node data are kept, and a trace
/// witnesses that every added edge was a closest cross pair when it was
/// added.
pub fn repair_connectivity(g: &mut ComputerGraph)
    requires
        old(g).wf(),
        old(g).n() >= 1,
    ensures
        final(g).wf(),
        final(g).nodes == old(g).nodes,
        final(g).connected_from_zero(),
        forall|a: int, b: int| old(g).edge(a, b) ==> final(g).edge(a, b),
        exists|gs: Seq<ComputerGraph>| repair_trace(*old(g), *final(g), gs),
{
    let n = g.nodes.len();
    let mut t = g.traverse(0);
    let ghost mut trace: Seq<ComputerGraph> = seq![*g];
    while t.reached < n
        invariant
            n == g.n(),
            g.wf(),
            g.nodes == old(g).nodes,
            forall|a: int, b: int| old(g).edge(a, b) ==> g.edge(a, b),
            g.tree_wf(0, t),
            forall|v: int| 0 <= v < g.n() ==> (t.visited@[v] <==> g.reachable(0, v)),
            t.reached <= n,
            trace.len() >= 1,
            trace[0] == *old(g),
            trace[trace.len() - 1] == *g,
            repair_chain(trace),
        decreases n - t.reached,
    {
        let ghost g0 = *g;
        let ghost t0 = t;
        let (bu, bv) = closest_cross_pair(g, &t.visited);
        proof {
            if g0.edge(bu as int, bv as int) {
                g0.lemma_reachable_step(0, bu as int, bv);
                assert(t0.visited@[bv as int]);
            }
        }
        g.add_edge(bu, bv);
        proof {
            assert forall|a: int, b: int| #[trigger] g0.edge(a, b) implies g.edge(a, b) by {}
            assert forall|w: int| 0 <= w < g.n() && t0.visited@[w] implies g.reachable(0, w) by {
                g0.lemma_reachable_monotone(*g, 0, w);
            }
            g0.lemma_reachable_monotone(*g, 0, bu as int);
            g.lemma_reachable_step(0, bu as int, bv);
            assert forall|a: int, b: int|
                0 <= a < g0.n() && 0 <= b < g0.n() && g0.reachable(0, a) && !g0.reachable(0, b)
                    implies dist_sq(
                g0.nodes@[bu as int].position,
                g0.nodes@[bv as int].position,
            ) <= #[trigger] dist_sq(g0.nodes@[a].position, g0.nodes@[b].position) by {
                assert(t0.visited@[a] && !t0.visited@[b]);
            }
            assert(closest_cross_edge(g0, bu as int, bv as int));
            assert(repair_step(g0, *g));
            let trace0 = trace;
            trace = trace.push(*g);
            assert(trace[trace.len() - 1] == *g);
            assert forall|i: int|
                0 <= i < trace.len() - 1 implies repair_step(#[trigger] trace[i], trace[i + 1]) by {
                if i < trace0.len() - 1 {
                    assert(trace[i] == trace0[i] && trace[i + 1] == trace0[i + 1]);
                    assert(repair_step(trace0[i], trace0[i + 1]));
                } else {
                    assert(trace[i] == trace0[trace0.len() - 1]);
                    assert(trace[i + 1] == *g);
                }
            }
        }
        let t2 = g.traverse(0);
        proof {
            assert forall|w: int| 0 <= w < g.n() && t0.visited@[w] implies t2.visited@[w] by {}
            assert(t2.visited@[bv as int]);
            lemma_count_trues_strict(t0.visited@, t2.visited@, bv as int);
        }
        t = t2;
    }
    proof {
        lemma_count_trues_full(t.visited@);
        assert forall|j: int| 0 <= j < g.n() implies g.reachable(0, j) by {
            assert(t.visited@[j]);
        }
        assert(repair_trace(*old(g), *g, trace));
    }
}

impl ComputerGraph {
    /// Build a graph from candidate positions: greedy spaced placement, an
    /// edge between every near pair, then connectivity repair.  Returns
    /// nothing exactly when fewer than two nodes could be placed; a returned
    /// graph is well-formed, one single connected component, and reached
    /// from the proximity graph by closest-pair repair steps alone.
    pub fn from_samples(samples: &Vec<Pos>, target: usize) -> (r: Option<ComputerGraph>)
        requires
            target <= 100_000,
            forall|i: int| 0 <= i < samples@.len() ==> in_bounds(#[trigger] samples@[i]),
        ensures
            (r is Some) <==> greedy_place(Seq::<Pos>::empty(), samples@, target as int).len() >= 2,
            r matches Some(g) ==> {
                let placed = greedy_place(Seq::<Pos>::empty(), samples@, target as int);
                &&& g.wf()
                &&& g.connected_from_zero()
                &&& g.nodes@.len() == placed.len()
                &&& g.nodes@.len() <= target
                &&& forall|i: int| 0 <= i < g.n() ==> (#[trigger] g.nodes@[i].position) == placed[i]
                &&& forall|a: int, b: int| near_pair(placed, a, b) ==> #[trigger] g.edge(a, b)
                &&& exists|gs: Seq<ComputerGraph>| generation_trace(placed, g, gs)
            },
    {
        let placed = place_positions(samples, target);
        if placed.len() < 2 {
            return None;
        }
        let mut g = connect_near(&placed);
        let ghost g_conn = g;
        repair_connectivity(&mut g);
        proof {
            let gs = choose|gs: Seq<ComputerGraph>| repair_trace(g_conn, g, gs);
            assert(proximity_graph_of(gs[0], placed@));
            assert(generation_trace(placed@, g, gs));
        }
        Some(g)
    }

    /// Generate a graph with the default node count from randomly sampled
    /// positions.  Whatever the generator draws, a returned graph is
    /// well-formed, singly connected, and holds at least two nodes.
    pub fn random() -> (r: Option<ComputerGraph>)
        ensures
            r matches Some(g) ==> g.wf() && g.connected_from_zero() && 2 <= g.n()
                <= DEFAULT_NODE_COUNT as int,
    {
        let total = DEFAULT_NODE_COUNT * PLACEMENT_ATTEMPTS;
        let mut samples: Vec<Pos> = Vec::new();
        while samples.len() < total
            invariant
                forall|i: int| 0 <= i < samples@.len() ==> in_bounds(#[trigger] samples@[i]),
            decreases total - samples@.len(),
        {
            let x = random_range_i64(-COORD_LIMIT, COORD_LIMIT);
            let y = random_range_i64(-COORD_LIMIT, COORD_LIMIT);
            samples.push(Pos { x, y });
        }
        Self::from_samples(&samples, DEFAULT_NODE_COUNT)
    }
}

} // verus!
