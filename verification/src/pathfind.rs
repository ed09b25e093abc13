//! Hop-count path search between two nodes, built on the breadth-first
//! traversal: reconstructs a concrete walk along the traversal's parent
//! links, and returns the empty vector exactly when no walk exists.

use vstd::prelude::*;

use crate::graph::ComputerGraph;

verus! {

/// Find a hop-count shortest path from `src` to `dst` through the graph's
/// edges.  The result is empty exactly when `dst` cannot be reached from
/// `src`; otherwise it starts at `src`, ends at `dst`, every consecutive
/// pair is a real edge, and no walk between the two is shorter.
pub fn shortest_path(g: &ComputerGraph, src: usize, dst: usize) -> (p: Vec<usize>)
    requires
        g.wf(),
        (src as int) < g.n(),
        (dst as int) < g.n(),
    ensures
        p@.len() == 0 <==> !g.reachable(src as int, dst as int),
        p@.len() > 0 ==> g.is_path_between(p@, src as int, dst as int),
        forall|q: Seq<usize>|
            p@.len() > 0 && #[trigger] g.is_path_between(q, src as int, dst as int) ==> p@.len()
                <= q.len(),
{
    let t = g.traverse(src);
    if !t.visited[dst] {
        return Vec::new();
    }
    let mut p: Vec<usize> = Vec::new();
    p.push(dst);
    let mut cur = dst;
    while cur != src
        invariant
            g.wf(),
            (src as int) < g.n(),
            (dst as int) < g.n(),
            g.tree_wf(src as int, t),
            (cur as int) < g.n(),
            t.visited@[cur as int],
            t.visited@[dst as int],
            g.is_path_between(p@, cur as int, dst as int),
            p@.len() == t.dist@[dst as int] - t.dist@[cur as int] + 1,
        decreases t.dist@[cur as int],
    {
        let ghost p0 = p@;
        let pr = t.parent[cur];
        p.insert(0, pr);
        proof {
            assert(g.edge(pr as int, cur as int));
            assert(p@ == p0.insert(0, pr));
            assert(p@[0] == pr);
            assert forall|k: int| 0 <= k < p@.len() - 1 implies g.edge(
                #[trigger] p@[k] as int,
                p@[k + 1] as int,
            ) by {
                if k > 0 {
                    assert(p@[k] == p0[k - 1]);
                    assert(p@[k + 1] == p0[k]);
                    assert(g.edge(p0[k - 1] as int, p0[k] as int));
                }
            }
            assert(p@[p@.len() - 1] == p0[p0.len() - 1]);
        }
        cur = pr;
    }
    proof {
        assert(p@.len() == t.dist@[dst as int] + 1);
        assert forall|q: Seq<usize>| #[trigger] g.is_path_between(
            q,
            src as int,
            dst as int,
        ) implies p@.len() <= q.len() by {
            crate::graph::lemma_levels_give_min_dist(*g, src as int, t.visited@, t.dist@, q);
        }
    }
    p
}

} // verus!
