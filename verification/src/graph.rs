//! The spatial graph: node positions plus undirected adjacency lists, with
//! well-formedness (symmetry, no self-loops, no duplicate edges, spaced
//! in-bounds positions) and a spec-level theory of paths and reachability.

use vstd::prelude::*;

use crate::geom::{dist_sq, in_bounds, Pos};
use crate::MIN_SPACING;

verus! {

/// A vertex of the graph: a fixed position assigned at generation time.
#[derive(Clone, Copy, PartialEq, Eq, Structural, Debug)]
pub struct ComputerNode {
    pub position: Pos,
}

/// Undirected simple graph over positioned nodes, stored as adjacency lists
/// indexed by the stable integer handle of each node.
pub struct ComputerGraph {
    pub nodes: Vec<ComputerNode>,
    pub adj: Vec<Vec<usize>>,
}

/// What a breadth-first traversal leaves behind: which nodes were reached,
/// through which parent, at what hop depth, and how many in all.
pub struct BfsTree {
    pub visited: Vec<bool>,
    pub parent: Vec<usize>,
    pub dist: Vec<usize>,
    pub reached: usize,
}

/// A vector holding `n` copies of `x`.
pub fn filled_usize(n: usize, x: usize) -> (v: Vec<usize>)
    ensures
        v@.len() == n,
        forall|i: int| 0 <= i < n ==> v@[i] == x,
{
    let mut v: Vec<usize> = Vec::new();
    while v.len() < n
        invariant
            v@.len() <= n,
            forall|i: int| 0 <= i < v@.len() ==> v@[i] == x,
        decreases n - v@.len(),
    {
        v.push(x);
    }
    v
}

/// A vector of `n` cleared flags.
pub fn filled_false(n: usize) -> (v: Vec<bool>)
    ensures
        v@.len() == n,
        forall|i: int| 0 <= i < n ==> !v@[i],
{
    let mut v: Vec<bool> = Vec::new();
    while v.len() < n
        invariant
            v@.len() <= n,
            forall|i: int| 0 <= i < v@.len() ==> !v@[i],
        decreases n - v@.len(),
    {
        v.push(false);
    }
    v
}

/// How many entries of a boolean mask are set.
pub open spec fn count_trues(s: Seq<bool>) -> int
    decreases s.len(),
{
    if s.len() == 0 {
        0
    } else {
        count_trues(s.drop_last()) + if s.last() {
            1int
        } else {
            0int
        }
    }
}

pub proof fn lemma_count_trues_bound(s: Seq<bool>)
    ensures
        0 <= count_trues(s) <= s.len(),
    decreases s.len(),
{
    if s.len() > 0 {
        lemma_count_trues_bound(s.drop_last());
    }
}

/// Setting one unset entry raises the count by exactly one.
pub proof fn lemma_count_trues_set(s: Seq<bool>, i: int)
    requires
        0 <= i < s.len(),
        !s[i],
    ensures
        count_trues(s.update(i, true)) == count_trues(s) + 1,
    decreases s.len(),
{
    let t = s.update(i, true);
    if i == s.len() - 1 {
        assert(t.drop_last() =~= s.drop_last());
    } else {
        assert(t.drop_last() =~= s.drop_last().update(i, true));
        lemma_count_trues_set(s.drop_last(), i);
    }
}

/// A mask that is set wherever another is, and set at one more spot, has the
/// strictly larger count.
pub proof fn lemma_count_trues_strict(a: Seq<bool>, b: Seq<bool>, w: int)
    requires
        a.len() == b.len(),
        forall|i: int| 0 <= i < a.len() && a[i] ==> b[i],
        0 <= w < a.len(),
        !a[w],
        b[w],
    ensures
        count_trues(a) < count_trues(b),
    decreases a.len(),
{
    if w == a.len() - 1 {
        lemma_count_trues_mono(a.drop_last(), b.drop_last());
    } else {
        lemma_count_trues_strict(a.drop_last(), b.drop_last(), w);
    }
}

/// A mask set wherever another is has at least its count.
pub proof fn lemma_count_trues_mono(a: Seq<bool>, b: Seq<bool>)
    requires
        a.len() == b.len(),
        forall|i: int| 0 <= i < a.len() && a[i] ==> b[i],
    ensures
        count_trues(a) <= count_trues(b),
    decreases a.len(),
{
    if a.len() > 0 {
        lemma_count_trues_mono(a.drop_last(), b.drop_last());
    }
}

/// A full mask has every entry set.
pub proof fn lemma_count_trues_full(s: Seq<bool>)
    requires
        count_trues(s) == s.len(),
    ensures
        forall|i: int| 0 <= i < s.len() ==> s[i],
    decreases s.len(),
{
    if s.len() > 0 {
        lemma_count_trues_bound(s.drop_last());
        lemma_count_trues_full(s.drop_last());
        assert forall|i: int| 0 <= i < s.len() implies s[i] by {
            if i < s.len() - 1 {
                assert(s.drop_last()[i]);
            }
        }
    }
}

/// What `push` does to sequence membership.
pub proof fn lemma_push_contains<T>(s: Seq<T>, x: T, y: T)
    ensures
        s.push(x).contains(y) <==> (s.contains(y) || y == x),
{
    assert(s.push(x)[s.len() as int] == x);
    if s.contains(y) {
        let k = choose|k: int| 0 <= k < s.len() && s[k] == y;
        assert(s.push(x)[k] == y);
    }
    if s.push(x).contains(y) {
        let k = choose|k: int| 0 <= k < s.push(x).len() && s.push(x)[k] == y;
        if k < s.len() {
            assert(s[k] == y);
        }
    }
}

impl ComputerGraph {
    /// Number of nodes.
    pub open spec fn n(self) -> int {
        self.nodes.len() as int
    }

    /// There is an edge from `u` to `v`.
    pub open spec fn edge(self, u: int, v: int) -> bool {
        &&& 0 <= u < self.n()
        &&& 0 <= v < self.n()
        &&& self.adj[u]@.contains(v as usize)
    }

    /// Structural invariant: adjacency matches the node count, entries are
    /// valid handles, lists hold no duplicates and no self-loops, edges are
    /// symmetric, and positions are in bounds and pairwise spaced apart.
    pub open spec fn wf(self) -> bool {
        &&& self.adj.len() == self.nodes.len()
        &&& self.nodes.len() <= 100_000
        &&& forall|i: int|
            0 <= i < self.n() ==> in_bounds(#[trigger] self.nodes[i].position)
        &&& forall|i: int, k: int|
            0 <= i < self.n() && 0 <= k < self.adj[i]@.len() ==> (#[trigger] self.adj[i]@[k]) < self.nodes.len()
                && self.adj[i]@[k] != i
        &&& forall|i: int, k1: int, k2: int|
            0 <= i < self.n() && 0 <= k1 < k2 < self.adj[i]@.len() ==> (#[trigger] self.adj[i]@[k1])
                != (#[trigger] self.adj[i]@[k2])
        &&& forall|u: int, v: int| #[trigger] self.edge(u, v) ==> self.edge(v, u)
        &&& forall|i: int, j: int|
            0 <= i < self.n() && 0 <= j < self.n() && i != j ==> #[trigger] dist_sq(
                self.nodes[i].position,
                self.nodes[j].position,
            ) >= MIN_SPACING * MIN_SPACING
    }

    /// `p` is a walk through the graph: nonempty, every element a valid
    /// handle, and consecutive elements joined by an edge.
    pub open spec fn is_path(self, p: Seq<usize>) -> bool {
        &&& p.len() >= 1
        &&& forall|k: int| 0 <= k < p.len() ==> (#[trigger] p[k]) < self.nodes.len()
        &&& forall|k: int| 0 <= k < p.len() - 1 ==> self.edge(#[trigger] p[k] as int, p[k + 1] as int)
    }

    /// `p` is a walk from `a` to `b`.
    pub open spec fn is_path_between(self, p: Seq<usize>, a: int, b: int) -> bool {
        &&& self.is_path(p)
        &&& p[0] as int == a
        &&& p[p.len() - 1] as int == b
    }

    /// Some walk leads from `a` to `b`.
    pub open spec fn reachable(self, a: int, b: int) -> bool {
        exists|p: Seq<usize>| self.is_path_between(p, a, b)
    }

    /// The whole graph is one connected component, seen from node 0.
    pub open spec fn connected_from_zero(self) -> bool {
        forall|j: int| 0 <= j < self.n() ==> self.reachable(0, j)
    }

    /// Appending a neighbor of a walk's endpoint keeps it a walk.
    pub proof fn lemma_path_extend(self, p: Seq<usize>, a: int, u: int, v: usize)
        requires
            self.is_path_between(p, a, u),
            self.edge(u, v as int),
        ensures
            self.is_path_between(p.push(v), a, v as int),
    {
        let q = p.push(v);
        assert forall|k: int| 0 <= k < q.len() - 1 implies #[trigger] self.edge(
            q[k] as int,
            q[k + 1] as int,
        ) by {
            if k < p.len() - 1 {
                assert(self.edge(p[k] as int, p[k + 1] as int));
            }
        }
    }

    /// Reachability is closed under following one more edge.
    pub proof fn lemma_reachable_step(self, a: int, u: int, v: usize)
        requires
            self.reachable(a, u),
            self.edge(u, v as int),
        ensures
            self.reachable(a, v as int),
    {
        let p = choose|p: Seq<usize>| self.is_path_between(p, a, u);
        self.lemma_path_extend(p, a, u, v);
    }

    /// Every node reaches itself.
    pub proof fn lemma_reachable_self(self, a: int)
        requires
            0 <= a < self.n(),
        ensures
            self.reachable(a, a),
    {
        let p: Seq<usize> = seq![a as usize];
        assert(self.is_path_between(p, a, a));
    }

    /// A set of nodes that contains a walk's start and is closed under edges
    /// contains the walk's end.
    pub proof fn lemma_path_stays_in_closed_set(self, p: Seq<usize>, mask: Seq<bool>)
        requires
            self.is_path(p),
            mask.len() == self.n(),
            mask[p[0] as int],
            forall|u: int, v: int|
                0 <= u < self.n() && mask[u] && #[trigger] self.edge(u, v) ==> mask[v],
        ensures
            mask[p[p.len() - 1] as int],
        decreases p.len(),
    {
        if p.len() > 1 {
            let q = p.subrange(1, p.len() as int);
            assert(self.edge(p[0] as int, p[1] as int));
            assert(mask[q[0] as int]);
            self.lemma_path_stays_in_closed_set(q, mask);
        }
    }

    /// Whatever is reachable from a node of a closed set lies in the set.
    pub proof fn lemma_reachable_stays_in_closed_set(self, mask: Seq<bool>, a: int, b: int)
        requires
            self.reachable(a, b),
            mask.len() == self.n(),
            0 <= a < self.n(),
            mask[a],
            forall|u: int, v: int|
                0 <= u < self.n() && mask[u] && #[trigger] self.edge(u, v) ==> mask[v],
        ensures
            mask[b],
    {
        let p = choose|p: Seq<usize>| self.is_path_between(p, a, b);
        self.lemma_path_stays_in_closed_set(p, mask);
    }

    /// Growing the edge relation (on the same nodes) preserves walks.
    pub proof fn lemma_path_monotone(self, bigger: ComputerGraph, p: Seq<usize>, a: int, b: int)
        requires
            self.is_path_between(p, a, b),
            bigger.nodes.len() == self.nodes.len(),
            forall|u: int, v: int| #[trigger] self.edge(u, v) ==> bigger.edge(u, v),
        ensures
            bigger.is_path_between(p, a, b),
    {
        assert forall|k: int| 0 <= k < p.len() - 1 implies #[trigger] bigger.edge(
            p[k] as int,
            p[k + 1] as int,
        ) by {
            assert(self.edge(p[k] as int, p[k + 1] as int));
        }
    }

    /// Growing the edge relation preserves reachability.
    pub proof fn lemma_reachable_monotone(self, bigger: ComputerGraph, a: int, b: int)
        requires
            self.reachable(a, b),
            bigger.nodes.len() == self.nodes.len(),
            forall|u: int, v: int| #[trigger] self.edge(u, v) ==> bigger.edge(u, v),
        ensures
            bigger.reachable(a, b),
    {
        let p = choose|p: Seq<usize>| self.is_path_between(p, a, b);
        self.lemma_path_monotone(bigger, p, a, b);
    }

    /// Insert the undirected edge `{u, v}`; every other edge is kept and no
    /// other edge appears.
    pub fn add_edge(&mut self, u: usize, v: usize)
        requires
            old(self).wf(),
            u < old(self).nodes.len(),
            v < old(self).nodes.len(),
            u != v,
            !old(self).edge(u as int, v as int),
        ensures
            final(self).wf(),
            final(self).nodes == old(self).nodes,
            forall|a: int, b: int|
                final(self).edge(a, b) <==> old(self).edge(a, b) || (a == u && b == v) || (a == v
                    && b == u),
    {
        proof {
            assert(!old(self).edge(v as int, u as int));
        }
        self.adj[u].push(v);
        self.adj[v].push(u);
        proof {
            let g0 = *old(self);
            let g1 = *self;
            assert(g1.adj[u as int]@ == g0.adj[u as int]@.push(v));
            assert(g1.adj[v as int]@ == g0.adj[v as int]@.push(u));
            assert forall|i: int| 0 <= i < g1.n() && i != u && i != v implies g1.adj[i]@ == g0.adj[i]@ by {}
            assert forall|a: int, b: int|
                #[trigger] g1.edge(a, b) <==> g0.edge(a, b) || (a == u && b == v) || (a == v && b
                    == u) by {
                if 0 <= a < g1.n() && 0 <= b < g1.n() {
                    if a == u {
                        lemma_push_contains(g0.adj[a]@, v, b as usize);
                    } else if a == v {
                        lemma_push_contains(g0.adj[a]@, u, b as usize);
                    } else {
                        assert(g1.adj[a]@ == g0.adj[a]@);
                    }
                }
            }
            assert forall|a: int, b: int| #[trigger] g1.edge(a, b) implies g1.edge(b, a) by {
                if g0.edge(a, b) {
                    assert(g0.edge(b, a));
                }
            }
            assert forall|i: int, k1: int, k2: int|
                0 <= i < g1.n() && 0 <= k1 < k2 < g1.adj[i]@.len() implies (
            #[trigger] g1.adj[i]@[k1]) != (#[trigger] g1.adj[i]@[k2]) by {
                if i == u {
                    if k2 == g1.adj[i]@.len() - 1 {
                        assert(g1.adj[i]@[k2] == v);
                        assert(g0.adj[u as int]@.contains(g0.adj[u as int]@[k1]));
                    }
                } else if i == v {
                    if k2 == g1.adj[i]@.len() - 1 {
                        assert(g1.adj[i]@[k2] == u);
                        assert(g0.adj[v as int]@.contains(g0.adj[v as int]@[k1]));
                    }
                } else {
                    assert(g1.adj[i]@ == g0.adj[i]@);
                }
            }
        }
    }

    /// Walking a path whose start is reachable makes its end reachable.
    proof fn lemma_reachable_along(self, a: int, q: Seq<usize>)
        requires
            self.is_path(q),
            self.reachable(a, q[0] as int),
        ensures
            self.reachable(a, q[q.len() - 1] as int),
        decreases q.len(),
    {
        if q.len() > 1 {
            assert(self.edge(q[0] as int, q[1] as int));
            self.lemma_reachable_step(a, q[0] as int, q[1]);
            let q2 = q.subrange(1, q.len() as int);
            self.lemma_reachable_along(a, q2);
            assert(q2[q2.len() - 1] == q[q.len() - 1]);
        }
    }

    /// Reachability is transitive.
    pub proof fn lemma_reachable_trans(self, a: int, b: int, c: int)
        requires
            self.reachable(a, b),
            self.reachable(b, c),
        ensures
            self.reachable(a, c),
    {
        let q = choose|q: Seq<usize>| self.is_path_between(q, b, c);
        self.lemma_reachable_along(a, q);
    }

    /// In a well-formed graph the end of a walk reaches its start.
    proof fn lemma_path_reverse_reach(self, p: Seq<usize>)
        requires
            self.wf(),
            self.is_path(p),
        ensures
            self.reachable(p[p.len() - 1] as int, p[0] as int),
        decreases p.len(),
    {
        let b = p[p.len() - 1] as int;
        if p.len() == 1 {
            self.lemma_reachable_self(b);
        } else {
            let q = p.subrange(1, p.len() as int);
            self.lemma_path_reverse_reach(q);
            assert(self.edge(p[0] as int, p[1] as int));
            assert(self.edge(p[1] as int, p[0] as int));
            self.lemma_reachable_step(b, p[1] as int, p[0]);
        }
    }

    /// Edges are undirected, so reachability is symmetric.
    pub proof fn lemma_reachable_symmetric(self, a: int, b: int)
        requires
            self.wf(),
            self.reachable(a, b),
        ensures
            self.reachable(b, a),
    {
        let p = choose|p: Seq<usize>| self.is_path_between(p, a, b);
        self.lemma_path_reverse_reach(p);
    }

    /// A well-formed graph in which node 0 reaches every node is one single
    /// connected component: every node reaches every other node.
    pub proof fn lemma_connected_all_pairs(self, i: int, j: int)
        requires
            self.wf(),
            self.connected_from_zero(),
            0 <= i < self.n(),
            0 <= j < self.n(),
        ensures
            self.reachable(i, j),
    {
        assert(self.reachable(0, i));
        assert(self.reachable(0, j));
        self.lemma_reachable_symmetric(0, i);
        self.lemma_reachable_trans(i, 0, j);
    }

    /// The traversal output is internally consistent for this graph: reached
    /// nodes other than the start hang off a reached parent by a real edge,
    /// one hop deeper than it.
    pub open spec fn tree_wf(self, start: int, t: BfsTree) -> bool {
        &&& t.visited@.len() == self.n()
        &&& t.parent@.len() == self.n()
        &&& t.dist@.len() == self.n()
        &&& 0 <= start < self.n()
        &&& t.visited@[start]
        &&& t.dist@[start] == 0
        &&& t.reached as int == count_trues(t.visited@)
        &&& forall|v: int|
            0 <= v < self.n() && v != start && #[trigger] t.visited@[v] ==> {
                &&& (t.parent@[v] as int) < self.n()
                &&& t.visited@[t.parent@[v] as int]
                &&& self.edge(t.parent@[v] as int, v)
                &&& t.dist@[v] == t.dist@[t.parent@[v] as int] + 1
                &&& t.dist@[v] <= self.n()
            }
    }

    /// Breadth-first traversal from `start`.  The visited mask is exactly
    /// reachability from `start`, and the parent links form a tree along real
    /// edges with strictly decreasing depth towards `start`.
    #[verifier::rlimit(100)]
    #[verifier::spinoff_prover]
    pub fn traverse(&self, start: usize) -> (t: BfsTree)
        requires
            self.wf(),
            (start as int) < self.n(),
        ensures
            self.tree_wf(start as int, t),
            forall|v: int| 0 <= v < self.n() ==> (t.visited@[v] <==> self.reachable(start as int, v)),
            t.reached <= self.nodes.len(),
            levels_tight(*self, t.visited@, t.dist@),
    {
        let n = self.nodes.len();
        let mut visited = filled_false(n);
        let mut parent = filled_usize(n, start);
        let mut dist = filled_usize(n, 0);
        let mut queue: Vec<usize> = Vec::new();
        let mut head: usize = 0;
        let mut count: usize = 1;

        visited[start] = true;
        queue.push(start);
        proof {
            lemma_count_trues_set(filled_false_view(n as int), start as int);
            assert(filled_false_view(n as int) =~= Seq::new(n as nat, |i: int| false));
            assert(visited@ =~= Seq::new(n as nat, |i: int| false).update(start as int, true));
            assert(count_trues(Seq::new(n as nat, |i: int| false)) == 0) by {
                lemma_count_trues_none(Seq::new(n as nat, |i: int| false));
            }
            lemma_sound_init(*self, start as int, visited@);
            lemma_tree_init(*self, start as int, visited@, parent@, dist@);
            assert(queue@.subrange(0, queue@.len() as int)[0] == start);
            assert(queue@.subrange(0, queue@.len() as int).contains(start));
            lemma_level_init(
                *self,
                start as int,
                visited@,
                dist@,
                queue@.subrange(0, queue@.len() as int),
            );
        }

        while head < queue.len()
            invariant
                self.wf(),
                (start as int) < self.n(),
                n == self.nodes.len(),
                visited@.len() == n,
                parent@.len() == n,
                dist@.len() == n,
                head <= queue@.len(),
                count as int == count_trues(visited@),
                1 <= count <= n,
                visited@[start as int],
                dist@[start as int] == 0,
                forall|i: int|
                    0 <= i < queue@.len() ==> (#[trigger] queue@[i]) < n && visited@[queue@[i] as int],
                tree_links(*self, start as int, visited@, parent@, dist@, count as int),
                reached_sound(*self, start as int, visited@),
                level_closed_except(
                    *self,
                    visited@,
                    dist@,
                    queue@.subrange(head as int, queue@.len() as int),
                    -1,
                ),
                pending_levels_ok(dist@, queue@.subrange(head as int, queue@.len() as int)),
                settled_below(
                    visited@,
                    dist@,
                    queue@.subrange(head as int, queue@.len() as int),
                    -1,
                ),
            decreases n - count, queue@.len() - head,
        {
            let ghost count0 = count as int;
            let ghost queue0 = queue@;
            let ghost head0 = head as int;
            let u = queue[head];
            head = head + 1;
            proof {
                lemma_level_pop(*self, visited@, dist@, queue0, head0);
            }
            let du = dist[u];
            let deg = self.adj[u].len();
            let mut k: usize = 0;
            while k < deg
                invariant
                    self.wf(),
                    (start as int) < self.n(),
                    n == self.nodes.len(),
                    visited@.len() == n,
                    parent@.len() == n,
                    dist@.len() == n,
                    head <= queue@.len(),
                    count as int == count_trues(visited@),
                    1 <= count <= n,
                    visited@[start as int],
                    dist@[start as int] == 0,
                    (u as int) < n,
                    visited@[u as int],
                    deg == self.adj[u as int]@.len(),
                    k <= deg,
                    count0 <= count,
                    queue0.len() - head0 - 1 == queue@.len() - head || count0 < count,
                    forall|i: int|
                        0 <= i < queue@.len() ==> (#[trigger] queue@[i]) < n && visited@[queue@[i] as int],
                    tree_links(*self, start as int, visited@, parent@, dist@, count as int),
                    reached_sound(*self, start as int, visited@),
                    du == dist@[u as int],
                    level_closed_except(
                        *self,
                        visited@,
                        dist@,
                        queue@.subrange(head as int, queue@.len() as int),
                        u as int,
                    ),
                    pending_levels_ok(dist@, queue@.subrange(head as int, queue@.len() as int)),
                    pending_near(
                        dist@,
                        queue@.subrange(head as int, queue@.len() as int),
                        du as int,
                    ),
                    settled_below(
                        visited@,
                        dist@,
                        queue@.subrange(head as int, queue@.len() as int),
                        u as int,
                    ),
                    settled_at_most(
                        visited@,
                        dist@,
                        queue@.subrange(head as int, queue@.len() as int),
                        u as int,
                        du as int,
                    ),
                    forall|k2: int|
                        0 <= k2 < k ==> visited@[#[trigger] self.adj[u as int]@[k2] as int]
                            && dist@[self.adj[u as int]@[k2] as int] <= du + 1,
                decreases deg - k,
            {
                let v = self.adj[u][k];
                proof {
                    assert(self.adj[u as int]@[k as int] == v);
                    assert(self.edge(u as int, v as int));
                }
                if !visited[v] {
                    let ghost visited0 = visited@;
                    let ghost queue1 = queue@;
                    let ghost parent0 = parent@;
                    let ghost dist0 = dist@;
                    let ghost countb = count as int;
                    visited[v] = true;
                    proof {
                        lemma_tree_dist_bound(
                            *self,
                            start as int,
                            visited0,
                            parent0,
                            dist0,
                            countb,
                            u as int,
                        );
                        assert(du + 1 <= n);
                    }
                    dist[v] = du + 1;
                    parent[v] = u;
                    queue.push(v);
                    count = count + 1;
                    proof {
                        lemma_count_trues_set(visited0, v as int);
                        lemma_count_trues_bound(visited@);
                        lemma_sound_mark(*self, start as int, visited0, u as int, v);
                        lemma_tree_mark(
                            *self,
                            start as int,
                            visited0,
                            parent0,
                            dist0,
                            u as int,
                            v,
                            (du + 1) as usize,
                            countb,
                        );
                        lemma_level_mark(
                            *self,
                            visited0,
                            dist0,
                            queue1,
                            head as int,
                            u as int,
                            v,
                            du,
                            (du + 1) as usize,
                        );
                    }
                } else {
                    proof {
                        lemma_visited_neighbor_bound(
                            visited@,
                            dist@,
                            queue@.subrange(head as int, queue@.len() as int),
                            u as int,
                            du,
                            v,
                        );
                    }
                }
                k = k + 1;
            }
            proof {
                lemma_level_node_done(
                    *self,
                    visited@,
                    dist@,
                    queue@.subrange(head as int, queue@.len() as int),
                    u as int,
                    du,
                );
            }
        }
        proof {
            reveal(tree_links);
            let pending = queue@.subrange(head as int, queue@.len() as int);
            assert(pending.len() == 0);
            lemma_levels_final(*self, visited@, dist@, pending);
            assert forall|u2: int, v2: int|
                0 <= u2 < self.n() && visited@[u2] && #[trigger] self.edge(u2, v2) implies visited@[v2] by {
            }
            lemma_mask_is_reachability(*self, start as int, visited@);
        }
        BfsTree { visited, parent, dist, reached: count }
    }
}

/// The all-false sequence of length `n`.
pub open spec fn filled_false_view(n: int) -> Seq<bool> {
    Seq::new(n as nat, |i: int| false)
}

/// A mask with every entry set counts its length.
pub proof fn lemma_count_trues_all(s: Seq<bool>)
    requires
        forall|i: int| 0 <= i < s.len() ==> s[i],
    ensures
        count_trues(s) == s.len(),
    decreases s.len(),
{
    if s.len() > 0 {
        lemma_count_trues_all(s.drop_last());
    }
}

/// A mask with no set entry counts zero.
pub proof fn lemma_count_trues_none(s: Seq<bool>)
    requires
        forall|i: int| 0 <= i < s.len() ==> !s[i],
    ensures
        count_trues(s) == 0,
    decreases s.len(),
{
    if s.len() > 0 {
        lemma_count_trues_none(s.drop_last());
    }
}

/// Every reached node is really reachable from the start.  Kept opaque so
/// that the traversal loop handles it as one fact and the quantifier behind
/// it is only opened inside the lemmas below.
#[verifier::opaque]
pub open spec fn reached_sound(g: ComputerGraph, start: int, visited: Seq<bool>) -> bool {
    forall|v: int| 0 <= v < g.n() && #[trigger] visited[v] ==> g.reachable(start, v)
}

/// A mask reaching only the start itself is sound.
proof fn lemma_sound_init(g: ComputerGraph, start: int, visited: Seq<bool>)
    requires
        0 <= start < g.n(),
        visited.len() == g.n(),
        forall|v: int| 0 <= v < visited.len() && #[trigger] visited[v] ==> v == start,
    ensures
        reached_sound(g, start, visited),
{
    reveal(reached_sound);
    g.lemma_reachable_self(start);
}

/// Marking a neighbor of a reached node keeps the mask sound.
proof fn lemma_sound_mark(g: ComputerGraph, start: int, visited0: Seq<bool>, u: int, v: usize)
    requires
        reached_sound(g, start, visited0),
        visited0.len() == g.n(),
        0 <= u < g.n(),
        visited0[u],
        g.edge(u, v as int),
    ensures
        reached_sound(g, start, visited0.update(v as int, true)),
{
    reveal(reached_sound);
    g.lemma_reachable_step(start, u, v);
    assert forall|w: int|
        0 <= w < g.n() && #[trigger] visited0.update(v as int, true)[w] implies g.reachable(
        start,
        w,
    ) by {
        if w != v as int {
            assert(visited0[w]);
        }
    }
}

/// What soundness and closedness of the final mask give: the mask is
/// exactly reachability.
proof fn lemma_mask_is_reachability(g: ComputerGraph, start: int, visited: Seq<bool>)
    requires
        0 <= start < g.n(),
        visited.len() == g.n(),
        visited[start],
        reached_sound(g, start, visited),
        forall|u2: int, v2: int|
            0 <= u2 < g.n() && visited[u2] && #[trigger] g.edge(u2, v2) ==> visited[v2],
    ensures
        forall|v: int| 0 <= v < g.n() ==> (visited[v] <==> g.reachable(start, v)),
{
    reveal(reached_sound);
    assert forall|v: int| 0 <= v < g.n() && g.reachable(start, v) implies visited[v] by {
        g.lemma_reachable_stays_in_closed_set(visited, start, v);
    }
}

/// Edges out of reached nodes stay within one depth level: the depth map is
/// a breadth-first layering, which is what makes its distances minimal.
pub open spec fn levels_tight(g: ComputerGraph, visited: Seq<bool>, dist: Seq<usize>) -> bool {
    forall|u: int, v: int|
        0 <= u < g.n() && visited[u] && #[trigger] g.edge(u, v) ==> visited[v] && dist[v] <= dist[u]
            + 1
}

/// Worklist form of the layering: every reached node outside the pending
/// tail (except the one in hand, `ex`) keeps all its neighbors reached
/// within one extra depth.  Opaque so the traversal loop carries it as one
/// fact.
#[verifier::opaque]
pub open spec fn level_closed_except(
    g: ComputerGraph,
    visited: Seq<bool>,
    dist: Seq<usize>,
    pending: Seq<usize>,
    ex: int,
) -> bool {
    forall|u2: int, v2: int|
        0 <= u2 < g.n() && u2 != ex && visited[u2] && !pending.contains(u2 as usize)
            && #[trigger] g.edge(u2, v2) ==> visited[v2] && dist[v2] <= dist[u2] + 1
}

/// Depths across the pending tail: non-decreasing front to back, and never
/// more than one above the front.
#[verifier::opaque]
pub open spec fn pending_levels_ok(dist: Seq<usize>, pending: Seq<usize>) -> bool {
    &&& forall|i: int, j: int|
        #![trigger pending[i], pending[j]]
        0 <= i <= j < pending.len() ==> dist[pending[i] as int] <= dist[pending[j] as int]
    &&& forall|i: int|
        0 <= i < pending.len() ==> dist[#[trigger] pending[i] as int] <= dist[pending[0] as int]
            + 1
}

/// Every pending depth lies between `du` and `du + 1`.
#[verifier::opaque]
pub open spec fn pending_near(dist: Seq<usize>, pending: Seq<usize>, du: int) -> bool {
    forall|i: int| 0 <= i < pending.len() ==> du <= dist[#[trigger] pending[i] as int] <= du + 1
}

/// No settled node (reached, done, and not the one in hand) sits deeper
/// than anything still pending.
#[verifier::opaque]
pub open spec fn settled_below(
    visited: Seq<bool>,
    dist: Seq<usize>,
    pending: Seq<usize>,
    ex: int,
) -> bool {
    forall|v: int, i: int|
        #![trigger visited[v], pending[i]]
        0 <= v < visited.len() && v != ex && visited[v] && !pending.contains(v as usize) && 0 <= i
            < pending.len() ==> dist[v] <= dist[pending[i] as int]
}

/// Every settled node sits at depth `du` or below it.
#[verifier::opaque]
pub open spec fn settled_at_most(
    visited: Seq<bool>,
    dist: Seq<usize>,
    pending: Seq<usize>,
    ex: int,
    du: int,
) -> bool {
    forall|v: int|
        0 <= v < visited.len() && v != ex && #[trigger] visited[v] && !pending.contains(v as usize)
            ==> dist[v] <= du
}

/// Parent links of reached nodes form a tree rooted at `start`: each hangs
/// off a reached parent by a real edge, one hop deeper, with every depth
/// strictly below `bound`.  Opaque for the traversal loop's sake.
#[verifier::opaque]
pub open spec fn tree_links(
    g: ComputerGraph,
    start: int,
    visited: Seq<bool>,
    parent: Seq<usize>,
    dist: Seq<usize>,
    bound: int,
) -> bool {
    forall|v: int|
        0 <= v < g.n() && v != start && #[trigger] visited[v] ==> {
            &&& (parent[v] as int) < g.n()
            &&& visited[parent[v] as int]
            &&& g.edge(parent[v] as int, v)
            &&& dist[v] == dist[parent[v] as int] + 1
            &&& dist[v] < bound
        }
}

/// The tree predicate holds when only the start is reached.
proof fn lemma_tree_init(
    g: ComputerGraph,
    start: int,
    visited: Seq<bool>,
    parent: Seq<usize>,
    dist: Seq<usize>,
)
    requires
        visited.len() == g.n(),
        forall|v: int| 0 <= v < visited.len() && #[trigger] visited[v] ==> v == start,
    ensures
        tree_links(g, start, visited, parent, dist, 1),
{
    reveal(tree_links);
}

/// Every reached node's depth lies strictly below the bound.
proof fn lemma_tree_dist_bound(
    g: ComputerGraph,
    start: int,
    visited: Seq<bool>,
    parent: Seq<usize>,
    dist: Seq<usize>,
    bound: int,
    u: int,
)
    requires
        tree_links(g, start, visited, parent, dist, bound),
        0 <= u < g.n(),
        visited[u],
        0 <= start < g.n(),
        dist[start] == 0,
        1 <= bound,
    ensures
        dist[u] < bound,
{
    reveal(tree_links);
}

/// Hanging an unreached node off a reached parent keeps the tree shape,
/// with the bound grown by one.
proof fn lemma_tree_mark(
    g: ComputerGraph,
    start: int,
    visited0: Seq<bool>,
    parent0: Seq<usize>,
    dist0: Seq<usize>,
    u: int,
    v: usize,
    dnew: usize,
    bound0: int,
)
    requires
        tree_links(g, start, visited0, parent0, dist0, bound0),
        visited0.len() == g.n(),
        parent0.len() == g.n(),
        dist0.len() == g.n(),
        0 <= start < g.n(),
        visited0[start],
        0 <= u < g.n(),
        0 <= (v as int) < g.n(),
        visited0[u],
        !visited0[v as int],
        g.edge(u, v as int),
        dist0[u] < bound0,
        dnew as int == dist0[u] + 1,
    ensures
        tree_links(
            g,
            start,
            visited0.update(v as int, true),
            parent0.update(v as int, u as usize),
            dist0.update(v as int, dnew),
            bound0 + 1,
        ),
{
    reveal(tree_links);
    let visited1 = visited0.update(v as int, true);
    let parent1 = parent0.update(v as int, u as usize);
    let dist1 = dist0.update(v as int, dnew);
    assert(v as int != start);
    assert forall|w: int|
        0 <= w < g.n() && w != start && #[trigger] visited1[w] implies {
        &&& (parent1[w] as int) < g.n()
        &&& visited1[parent1[w] as int]
        &&& g.edge(parent1[w] as int, w)
        &&& dist1[w] == dist1[parent1[w] as int] + 1
        &&& dist1[w] < bound0 + 1
    } by {
        if w != v as int {
            assert(visited0[w]);
            assert(visited0[parent0[w] as int]);
            assert(parent0[w] as int != v as int);
        }
    }
}

/// A reached neighbor of the node in hand sits at most one level deeper.
proof fn lemma_visited_neighbor_bound(
    visited: Seq<bool>,
    dist: Seq<usize>,
    pending: Seq<usize>,
    u: int,
    du: usize,
    v: usize,
)
    requires
        pending_near(dist, pending, du as int),
        settled_at_most(visited, dist, pending, u, du as int),
        du == dist[u],
        0 <= (v as int) < visited.len(),
        visited[v as int],
    ensures
        dist[v as int] <= du + 1,
{
    reveal(pending_near);
    reveal(settled_at_most);
    if (v as int) != u && pending.contains(v) {
        let idx = choose|idx: int| 0 <= idx < pending.len() && pending[idx] == v;
        assert(du as int <= dist[pending[idx] as int] <= du as int + 1);
    }
}

/// The worklist predicates hold at the start, when only the start node is
/// reached and it alone is pending.
proof fn lemma_level_init(
    g: ComputerGraph,
    start: int,
    visited: Seq<bool>,
    dist: Seq<usize>,
    pending: Seq<usize>,
)
    requires
        0 <= start < g.n(),
        visited.len() == g.n(),
        forall|v: int| 0 <= v < visited.len() && #[trigger] visited[v] ==> v == start,
        pending.len() == 1,
        pending[0] as int == start,
    ensures
        level_closed_except(g, visited, dist, pending, -1),
        pending_levels_ok(dist, pending),
        settled_below(visited, dist, pending, -1),
{
    reveal(level_closed_except);
    reveal(pending_levels_ok);
    reveal(settled_below);
    assert(pending.contains(pending[0]));
    assert forall|u2: int, v2: int|
        0 <= u2 < g.n() && u2 != -1 && visited[u2] && !pending.contains(u2 as usize)
            && #[trigger] g.edge(u2, v2) implies visited[v2] && dist[v2] <= dist[u2] + 1 by {
        assert(u2 == start);
        assert((u2 as usize) == pending[0]);
        assert(false);
    }
}

/// Popping the front of the pending tail hands out its depth facts and
/// keeps every worklist predicate, now with the popped node in hand.
proof fn lemma_level_pop(
    g: ComputerGraph,
    visited: Seq<bool>,
    dist: Seq<usize>,
    q: Seq<usize>,
    head: int,
)
    requires
        0 <= head < q.len(),
        visited.len() == g.n(),
        (q[head] as int) < g.n(),
        level_closed_except(g, visited, dist, q.subrange(head, q.len() as int), -1),
        pending_levels_ok(dist, q.subrange(head, q.len() as int)),
        settled_below(visited, dist, q.subrange(head, q.len() as int), -1),
    ensures
        level_closed_except(
            g,
            visited,
            dist,
            q.subrange(head + 1, q.len() as int),
            q[head] as int,
        ),
        pending_levels_ok(dist, q.subrange(head + 1, q.len() as int)),
        pending_near(dist, q.subrange(head + 1, q.len() as int), dist[q[head] as int] as int),
        settled_below(visited, dist, q.subrange(head + 1, q.len() as int), q[head] as int),
        settled_at_most(
            visited,
            dist,
            q.subrange(head + 1, q.len() as int),
            q[head] as int,
            dist[q[head] as int] as int,
        ),
{
    reveal(level_closed_except);
    reveal(pending_levels_ok);
    reveal(pending_near);
    reveal(settled_below);
    reveal(settled_at_most);
    lemma_subrange_step(q, head);
    let p0 = q.subrange(head, q.len() as int);
    let p1 = q.subrange(head + 1, q.len() as int);
    assert(p0[0] == q[head]);
    assert forall|i: int| 0 <= i < p1.len() implies p1[i] == p0[i + 1] by {}
    assert forall|u2: int, v2: int|
        0 <= u2 < g.n() && u2 != q[head] as int && visited[u2] && !p1.contains(u2 as usize)
            && #[trigger] g.edge(u2, v2) implies visited[v2] && dist[v2] <= dist[u2] + 1 by {
        assert(!p0.contains(u2 as usize));
    }
    assert forall|i: int|
        0 <= i < p1.len() implies dist[q[head] as int] as int <= dist[#[trigger] p1[i] as int]
            <= dist[q[head] as int] as int + 1 by {
        assert(p1[i] == p0[i + 1]);
        assert(dist[p0[0] as int] <= dist[p0[i + 1] as int] <= dist[p0[0] as int] + 1);
    }
    assert forall|v: int, i: int|
        #![trigger visited[v], p1[i]]
        0 <= v < visited.len() && v != q[head] as int && visited[v] && !p1.contains(v as usize) && 0
            <= i < p1.len() implies dist[v] <= dist[p1[i] as int] by {
        assert(!p0.contains(v as usize));
        assert(p1[i] == p0[i + 1]);
    }
    assert forall|v: int|
        0 <= v < visited.len() && v != q[head] as int && #[trigger] visited[v] && !p1.contains(
            v as usize,
        ) implies dist[v] <= dist[q[head] as int] by {
        assert(!p0.contains(v as usize));
        assert(dist[v] <= dist[p0[0] as int]);
    }
}

/// Marking an unreached neighbor of the node in hand at one extra depth and
/// enqueueing it keeps every worklist predicate.
proof fn lemma_level_mark(
    g: ComputerGraph,
    visited0: Seq<bool>,
    dist0: Seq<usize>,
    q0: Seq<usize>,
    head: int,
    u: int,
    w: usize,
    du: usize,
    dnew: usize,
)
    requires
        visited0.len() == g.n(),
        dist0.len() == g.n(),
        0 <= head <= q0.len(),
        0 <= u < g.n(),
        visited0[u],
        du == dist0[u],
        dnew as int == du as int + 1,
        (w as int) < g.n(),
        !visited0[w as int],
        forall|i: int|
            0 <= i < q0.len() ==> ((#[trigger] q0[i]) as int) < g.n() && visited0[q0[i] as int],
        level_closed_except(g, visited0, dist0, q0.subrange(head, q0.len() as int), u),
        pending_levels_ok(dist0, q0.subrange(head, q0.len() as int)),
        pending_near(dist0, q0.subrange(head, q0.len() as int), du as int),
        settled_below(visited0, dist0, q0.subrange(head, q0.len() as int), u),
        settled_at_most(visited0, dist0, q0.subrange(head, q0.len() as int), u, du as int),
    ensures
        level_closed_except(
            g,
            visited0.update(w as int, true),
            dist0.update(w as int, dnew),
            q0.push(w).subrange(head, q0.len() as int + 1),
            u,
        ),
        pending_levels_ok(
            dist0.update(w as int, dnew),
            q0.push(w).subrange(head, q0.len() as int + 1),
        ),
        pending_near(
            dist0.update(w as int, dnew),
            q0.push(w).subrange(head, q0.len() as int + 1),
            du as int,
        ),
        settled_below(
            visited0.update(w as int, true),
            dist0.update(w as int, dnew),
            q0.push(w).subrange(head, q0.len() as int + 1),
            u,
        ),
        settled_at_most(
            visited0.update(w as int, true),
            dist0.update(w as int, dnew),
            q0.push(w).subrange(head, q0.len() as int + 1),
            u,
            du as int,
        ),
{
    reveal(level_closed_except);
    reveal(pending_levels_ok);
    reveal(pending_near);
    reveal(settled_below);
    reveal(settled_at_most);
    lemma_subrange_push(q0, head, w);
    let p0 = q0.subrange(head, q0.len() as int);
    let p1 = q0.push(w).subrange(head, q0.len() as int + 1);
    let visited1 = visited0.update(w as int, true);
    let dist1 = dist0.update(w as int, dnew);
    assert(p1 =~= p0.push(w));
    assert forall|i: int| 0 <= i < p0.len() implies p0[i] != w by {
        assert(visited0[q0[head + i] as int]);
    }
    assert forall|i: int| 0 <= i < p0.len() implies dist1[#[trigger] p0[i] as int] == dist0[p0[i] as int] by {}
    assert(p1[p1.len() - 1] == w);
    assert(dist1[w as int] == dnew);
    assert forall|u2: int, v2: int|
        0 <= u2 < g.n() && u2 != u && visited1[u2] && !p1.contains(u2 as usize)
            && #[trigger] g.edge(u2, v2) implies visited1[v2] && dist1[v2] <= dist1[u2] + 1 by {
        lemma_push_contains(p0, w, u2 as usize);
        if u2 != w as int {
            assert(visited0[u2]);
            assert(!p0.contains(u2 as usize));
            assert(visited0[v2] && dist0[v2] <= dist0[u2] + 1);
            assert(v2 != w as int);
        } else {
            assert(p1.contains(w));
            assert(false);
        }
    }
    assert forall|i: int, j: int|
        #![trigger p1[i], p1[j]]
        0 <= i <= j < p1.len() implies dist1[p1[i] as int] <= dist1[p1[j] as int] by {
        if j < p1.len() - 1 {
            assert(p1[i] == p0[i] && p1[j] == p0[j]);
        } else if i < p1.len() - 1 {
            assert(p1[i] == p0[i]);
            assert(du as int <= dist0[p0[i] as int] <= du as int + 1);
        }
    }
    assert forall|i: int|
        0 <= i < p1.len() implies dist1[#[trigger] p1[i] as int] <= dist1[p1[0] as int] + 1 by {
        if p0.len() > 0 {
            assert(p1[0] == p0[0]);
            assert(du as int <= dist0[p0[0] as int]);
            if i < p1.len() - 1 {
                assert(p1[i] == p0[i]);
                assert(dist0[p0[i] as int] <= du as int + 1);
            }
        }
    }
    assert forall|i: int|
        0 <= i < p1.len() implies du as int <= dist1[#[trigger] p1[i] as int] <= du as int + 1 by {
        if i < p1.len() - 1 {
            assert(p1[i] == p0[i]);
        }
    }
    assert forall|v: int, i: int|
        #![trigger visited1[v], p1[i]]
        0 <= v < visited1.len() && v != u && visited1[v] && !p1.contains(v as usize) && 0 <= i
            < p1.len() implies dist1[v] <= dist1[p1[i] as int] by {
        lemma_push_contains(p0, w, v as usize);
        assert(v != w as int);
        assert(visited0[v] && !p0.contains(v as usize));
        assert(dist0[v] <= du as int);
        assert(du as int <= dist1[p1[i] as int]);
    }
    assert forall|v: int|
        0 <= v < visited1.len() && v != u && #[trigger] visited1[v] && !p1.contains(v as usize)
            implies dist1[v] <= du as int by {
        lemma_push_contains(p0, w, v as usize);
        assert(v != w as int);
        assert(visited0[v] && !p0.contains(v as usize));
    }
}

/// Once every neighbor of the node in hand is reached within one extra
/// depth, the worklist predicates hold with no node in hand.
proof fn lemma_level_node_done(
    g: ComputerGraph,
    visited: Seq<bool>,
    dist: Seq<usize>,
    pending: Seq<usize>,
    u: int,
    du: usize,
)
    requires
        0 <= u < g.n(),
        visited.len() == g.n(),
        du == dist[u],
        level_closed_except(g, visited, dist, pending, u),
        pending_near(dist, pending, du as int),
        settled_below(visited, dist, pending, u),
        forall|k: int|
            0 <= k < g.adj[u]@.len() ==> visited[#[trigger] g.adj[u]@[k] as int] && dist[g.adj[u]@[k] as int]
                <= du + 1,
    ensures
        level_closed_except(g, visited, dist, pending, -1),
        settled_below(visited, dist, pending, -1),
{
    reveal(level_closed_except);
    reveal(pending_near);
    reveal(settled_below);
    assert forall|u2: int, v2: int|
        0 <= u2 < g.n() && u2 != -1 && visited[u2] && !pending.contains(u2 as usize)
            && #[trigger] g.edge(u2, v2) implies visited[v2] && dist[v2] <= dist[u2] + 1 by {
        if u2 == u {
            let kk = choose|kk: int| 0 <= kk < g.adj[u2]@.len() && g.adj[u2]@[kk] == v2 as usize;
            assert(visited[g.adj[u]@[kk] as int] && dist[g.adj[u]@[kk] as int] <= du + 1);
        }
    }
    assert forall|v: int, i: int|
        #![trigger visited[v], pending[i]]
        0 <= v < visited.len() && v != -1 && visited[v] && !pending.contains(v as usize) && 0 <= i
            < pending.len() implies dist[v] <= dist[pending[i] as int] by {
        if v == u {
            assert(du as int <= dist[pending[i] as int]);
        }
    }
}

/// With nothing pending, the worklist closure is the breadth-first
/// layering itself.
proof fn lemma_levels_final(
    g: ComputerGraph,
    visited: Seq<bool>,
    dist: Seq<usize>,
    pending: Seq<usize>,
)
    requires
        pending.len() == 0,
        level_closed_except(g, visited, dist, pending, -1),
    ensures
        levels_tight(g, visited, dist),
{
    reveal(level_closed_except);
    assert forall|u: int, v: int|
        0 <= u < g.n() && visited[u] && #[trigger] g.edge(u, v) implies visited[v] && dist[v]
            <= dist[u] + 1 by {
        assert(!pending.contains(u as usize));
    }
}

/// In a breadth-first layering rooted at `start`, every walk from `start`
/// ends at a reached node whose recorded depth is at most the walk's hop
/// count: the layering's depths are minimal.
pub proof fn lemma_levels_give_min_dist(
    g: ComputerGraph,
    start: int,
    visited: Seq<bool>,
    dist: Seq<usize>,
    p: Seq<usize>,
)
    requires
        g.is_path(p),
        p[0] as int == start,
        visited.len() == g.n(),
        0 <= start < g.n(),
        visited[start],
        dist[start] == 0,
        levels_tight(g, visited, dist),
    ensures
        visited[p[p.len() - 1] as int],
        dist[p[p.len() - 1] as int] <= p.len() - 1,
    decreases p.len(),
{
    if p.len() > 1 {
        let q = p.drop_last();
        assert(q.len() == p.len() - 1);
        assert forall|k: int| 0 <= k < q.len() - 1 implies g.edge(
            #[trigger] q[k] as int,
            q[k + 1] as int,
        ) by {
            assert(g.edge(p[k] as int, p[k + 1] as int));
        }
        lemma_levels_give_min_dist(g, start, visited, dist, q);
        assert(g.edge(p[p.len() - 2] as int, p[p.len() - 1] as int));
    }
}

/// Dropping the front element of a sequence tail splits membership.
pub proof fn lemma_subrange_step(q: Seq<usize>, h: int)
    requires
        0 <= h < q.len(),
    ensures
        forall|x: usize|
            q.subrange(h, q.len() as int).contains(x) <==> (x == q[h] || q.subrange(
                h + 1,
                q.len() as int,
            ).contains(x)),
{
    assert forall|x: usize|
        q.subrange(h, q.len() as int).contains(x) <==> (x == q[h] || q.subrange(
            h + 1,
            q.len() as int,
        ).contains(x)) by {
        let s0 = q.subrange(h, q.len() as int);
        let s1 = q.subrange(h + 1, q.len() as int);
        if s0.contains(x) {
            let k = choose|k: int| 0 <= k < s0.len() && s0[k] == x;
            if k > 0 {
                assert(s1[k - 1] == x);
            }
        }
        if s1.contains(x) {
            let k = choose|k: int| 0 <= k < s1.len() && s1[k] == x;
            assert(s0[k + 1] == x);
        }
        assert(s0[0] == q[h]);
    }
}

/// Pushing onto a queue pushes onto its pending tail.
pub proof fn lemma_subrange_push(q: Seq<usize>, h: int, v: usize)
    requires
        0 <= h <= q.len(),
    ensures
        q.push(v).subrange(h, q.len() as int + 1) =~= q.subrange(h, q.len() as int).push(v),
{
}

} // verus!
