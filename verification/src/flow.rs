//! Editing the player's persistent flow directives: a batch edit along the
//! currently displayed path that, for every consecutive hop pair, inserts
//! the hop into the source's directive set — or removes it in erase mode.
//! The edit is toggle-free: applying it twice in add mode changes nothing
//! beyond the first application.

use vstd::prelude::*;

use crate::graph::lemma_push_contains;
use crate::world::{lists_view, WorldState};

verus! {

/// The hops that directly follow `u` somewhere along the path `p`.
pub open spec fn next_hops(p: Seq<usize>, u: int) -> Set<usize> {
    Set::new(
        |v: usize|
            exists|k: int| 0 <= k < p.len() - 1 && (#[trigger] p[k]) as int == u && p[k + 1] == v,
    )
}

/// Node `u`'s directive set after one edit along `p`.
pub open spec fn edited_flow_set(s: Set<usize>, p: Seq<usize>, u: int, erase: bool) -> Set<usize> {
    if erase {
        s.difference(next_hops(p, u))
    } else {
        s.union(next_hops(p, u))
    }
}

/// Applying the add-mode edit twice along the same path yields the same
/// directive set as applying it once.
pub proof fn lemma_edit_add_idempotent(s: Set<usize>, p: Seq<usize>, u: int)
    ensures
        edited_flow_set(edited_flow_set(s, p, u, false), p, u, false) == edited_flow_set(
            s,
            p,
            u,
            false,
        ),
{
    assert(edited_flow_set(edited_flow_set(s, p, u, false), p, u, false) =~= edited_flow_set(
        s,
        p,
        u,
        false,
    ));
}

/// The erase-mode edit is idempotent in the same way: erasing along a path
/// a second time removes nothing further.
pub proof fn lemma_edit_erase_idempotent(s: Set<usize>, p: Seq<usize>, u: int)
    ensures
        edited_flow_set(edited_flow_set(s, p, u, true), p, u, true) == edited_flow_set(
            s,
            p,
            u,
            true,
        ),
{
    assert(edited_flow_set(edited_flow_set(s, p, u, true), p, u, true) =~= edited_flow_set(
        s,
        p,
        u,
        true,
    ));
}

/// No pair hides in a path too short to have one.
proof fn lemma_next_hops_short(p: Seq<usize>, u: int)
    requires
        p.len() < 2,
    ensures
        next_hops(p, u) =~= Set::<usize>::empty(),
{
}

/// Extending the scanned prefix by one pair grows `next_hops` by exactly
/// that pair's destination (for its source) and nothing else.
proof fn lemma_next_hops_step(p: Seq<usize>, k: int, u: int)
    requires
        0 <= k < p.len() - 1,
    ensures
        p[k] as int == u ==> next_hops(p.subrange(0, k + 2), u) =~= next_hops(
            p.subrange(0, k + 1),
            u,
        ).insert(p[k + 1]),
        p[k] as int != u ==> next_hops(p.subrange(0, k + 2), u) =~= next_hops(
            p.subrange(0, k + 1),
            u,
        ),
{
    let p1 = p.subrange(0, k + 1);
    let p2 = p.subrange(0, k + 2);
    assert forall|v: usize| #[trigger] next_hops(p2, u).contains(v) implies (next_hops(
        p1,
        u,
    ).contains(v) || (p[k] as int == u && v == p[k + 1])) by {
        let j = choose|j: int| 0 <= j < p2.len() - 1 && (#[trigger] p2[j]) as int == u && p2[j + 1] == v;
        if j < k {
            assert(p1[j] as int == u && p1[j + 1] == v);
        }
    }
    assert forall|v: usize| #[trigger] next_hops(p1, u).contains(v) implies next_hops(
        p2,
        u,
    ).contains(v) by {
        let j = choose|j: int| 0 <= j < p1.len() - 1 && (#[trigger] p1[j]) as int == u && p1[j + 1] == v;
        assert(p2[j] as int == u && p2[j + 1] == v);
    }
    if p[k] as int == u {
        assert(p2[k] as int == u && p2[k + 1] == p[k + 1]);
        assert(next_hops(p2, u).contains(p[k + 1]));
    }
}

/// Insert a destination into a duplicate-free list unless already present.
fn insert_target(l: &mut Vec<usize>, v: usize)
    requires
        forall|k1: int, k2: int| 0 <= k1 < k2 < old(l)@.len() ==> old(l)@[k1] != old(l)@[k2],
    ensures
        forall|k1: int, k2: int| 0 <= k1 < k2 < final(l)@.len() ==> final(l)@[k1] != final(l)@[k2],
        final(l)@.to_set() == old(l)@.to_set().insert(v),
        forall|x: usize| final(l)@.contains(x) <==> old(l)@.contains(x) || x == v,
{
    let mut i: usize = 0;
    let n = l.len();
    while i < n
        invariant
            i <= n,
            n == l@.len(),
            l@ == old(l)@,
            forall|k1: int, k2: int| 0 <= k1 < k2 < l@.len() ==> l@[k1] != l@[k2],
            forall|k: int| 0 <= k < i ==> l@[k] != v,
        decreases n - i,
    {
        if l[i] == v {
            proof {
                assert(l@.to_set() =~= l@.to_set().insert(v));
            }
            return;
        }
        i = i + 1;
    }
    let ghost l0 = l@;
    l.push(v);
    proof {
        assert forall|x: usize| l@.contains(x) <==> l0.contains(x) || x == v by {
            lemma_push_contains(l0, v, x);
        }
        assert forall|x: usize|
            l@.to_set().contains(x) == l0.to_set().insert(v).contains(x) by {
            assert(l@.contains(x) <==> l0.contains(x) || x == v);
        }
        assert(l@.to_set() =~= l0.to_set().insert(v));
        assert forall|k1: int, k2: int|
            0 <= k1 < k2 < l@.len() implies l@[k1] != l@[k2] by {
            if k2 == l@.len() - 1 {
                assert(l@[k1] == l0[k1]);
                assert(!l0.contains(v));
            }
        }
    }
}

/// Remove a destination from a duplicate-free list if present.
fn remove_target(l: &mut Vec<usize>, v: usize)
    requires
        forall|k1: int, k2: int| 0 <= k1 < k2 < old(l)@.len() ==> old(l)@[k1] != old(l)@[k2],
    ensures
        forall|k1: int, k2: int| 0 <= k1 < k2 < final(l)@.len() ==> final(l)@[k1] != final(l)@[k2],
        final(l)@.to_set() == old(l)@.to_set().remove(v),
        forall|x: usize| final(l)@.contains(x) <==> old(l)@.contains(x) && x != v,
{
    let mut i: usize = 0;
    let n = l.len();
    while i < n
        invariant
            i <= n,
            n == l@.len(),
            l@ == old(l)@,
            forall|k1: int, k2: int| 0 <= k1 < k2 < l@.len() ==> l@[k1] != l@[k2],
            forall|k: int| 0 <= k < i ==> l@[k] != v,
        decreases n - i,
    {
        if l[i] == v {
            let ghost l0 = l@;
            let ghost iv = i as int;
            l.remove(i);
            proof {
                assert(l@ == l0.remove(iv));
                assert forall|x: usize| l@.contains(x) <==> l0.contains(x) && x != v by {
                    if l@.contains(x) {
                        let k = choose|k: int| 0 <= k < l@.len() && l@[k] == x;
                        if k < iv {
                            assert(l0[k] == x);
                        } else {
                            assert(l0[k + 1] == x);
                        }
                    }
                    if l0.contains(x) && x != v {
                        let k = choose|k: int| 0 <= k < l0.len() && l0[k] == x;
                        if k < iv {
                            assert(l@[k] == x);
                        } else {
                            assert(k > iv);
                            assert(l@[k - 1] == x);
                        }
                    }
                }
                assert(l@.to_set() =~= l0.to_set().remove(v));
                assert forall|k1: int, k2: int|
                    0 <= k1 < k2 < l@.len() implies l@[k1] != l@[k2] by {
                    if k2 < iv {
                    } else if k1 < iv {
                        assert(l@[k1] == l0[k1] && l@[k2] == l0[k2 + 1]);
                    } else {
                        assert(l@[k1] == l0[k1 + 1] && l@[k2] == l0[k2 + 1]);
                    }
                }
            }
            return;
        }
        i = i + 1;
    }
    proof {
        assert(l@.to_set() =~= l@.to_set().remove(v));
    }
}

/// Apply the player's batch edit along the currently displayed path: for
/// every consecutive pair `(u, v)` of the path, insert `v` into node `u`'s
/// directive set, or remove it in erase mode.  An entry whose set empties
/// simply stays empty, which is the absent entry.  Nothing else changes.
pub fn edit_flow(w: &mut WorldState, erase: bool)
    requires
        old(w).wf(),
    ensures
        final(w).wf(),
        final(w).graph == old(w).graph,
        final(w).nodes == old(w).nodes,
        final(w).ai_targets == old(w).ai_targets,
        final(w).interaction == old(w).interaction,
        final(w).packets == old(w).packets,
        final(w).ai_elapsed == old(w).ai_elapsed,
        final(w).flow_map.flows@.len() == old(w).flow_map.flows@.len(),
        forall|u: int|
            0 <= u < old(w).n() ==> lists_view(final(w).flow_map.flows)[u].to_set()
                == edited_flow_set(
                lists_view(old(w).flow_map.flows)[u].to_set(),
                old(w).interaction.path@,
                u,
                erase,
            ),
{
    let ghost w0 = *old(w);
    let ghost p = w0.interaction.path@;
    let n = w.graph.nodes.len();
    let plen = w.interaction.path.len();
    if plen < 2 {
        proof {
            assert forall|u: int|
                0 <= u < w0.n() implies lists_view(w.flow_map.flows)[u].to_set()
                == edited_flow_set(
                lists_view(w0.flow_map.flows)[u].to_set(),
                p,
                u,
                erase,
            ) by {
                lemma_next_hops_short(p, u);
                assert(lists_view(w.flow_map.flows)[u].to_set() =~= edited_flow_set(
                    lists_view(w0.flow_map.flows)[u].to_set(),
                    p,
                    u,
                    erase,
                ));
            }
        }
        return;
    }
    let mut k: usize = 0;
    proof {
        assert(w0.graph.is_path(p));
        assert forall|u: int|
            0 <= u < w0.n() implies lists_view(w.flow_map.flows)[u].to_set() == edited_flow_set(
            lists_view(w0.flow_map.flows)[u].to_set(),
            p.subrange(0, 1),
            u,
            erase,
        ) by {
            lemma_next_hops_short(p.subrange(0, 1), u);
            assert(lists_view(w.flow_map.flows)[u].to_set() =~= edited_flow_set(
                lists_view(w0.flow_map.flows)[u].to_set(),
                p.subrange(0, 1),
                u,
                erase,
            ));
        }
    }
    while k + 1 < plen
        invariant
            w.wf(),
            k + 1 <= plen,
            n == w0.n(),
            p == w0.interaction.path@,
            plen == p.len(),
            2 <= plen,
            w.graph == w0.graph,
            w.nodes == w0.nodes,
            w.ai_targets == w0.ai_targets,
            w.interaction == w0.interaction,
            w.packets == w0.packets,
            w.ai_elapsed == w0.ai_elapsed,
            w0.graph.is_path(p),
            w.flow_map.flows@.len() == n,
            forall|u: int|
                0 <= u < w0.n() ==> lists_view(w.flow_map.flows)[u].to_set() == edited_flow_set(
                    lists_view(w0.flow_map.flows)[u].to_set(),
                    p.subrange(0, k as int + 1),
                    u,
                    erase,
                ),
        decreases plen - k,
    {
        let u = w.interaction.path[k];
        let v = w.interaction.path[k + 1];
        let ghost before = lists_view(w.flow_map.flows);
        proof {
            assert(w0.graph.edge(p[k as int] as int, p[k as int + 1] as int));
        }
        if erase {
            remove_target(&mut w.flow_map.flows[u], v);
        } else {
            insert_target(&mut w.flow_map.flows[u], v);
        }
        proof {
            let orig = lists_view(w0.flow_map.flows);
            let now = lists_view(w.flow_map.flows);
            let p1 = p.subrange(0, k as int + 1);
            let p2 = p.subrange(0, k as int + 2);
            let ui = u as int;
            assert(now[ui] == w.flow_map.flows@[ui]@);
            if erase {
                assert(now[ui].to_set() == before[ui].to_set().remove(v));
            } else {
                assert(now[ui].to_set() == before[ui].to_set().insert(v));
            }
            assert forall|u2: int|
                0 <= u2 < w0.n() implies lists_view(w.flow_map.flows)[u2].to_set()
                == edited_flow_set(orig[u2].to_set(), p2, u2, erase) by {
                lemma_next_hops_step(p, k as int, u2);
                if u2 == ui {
                    if erase {
                        assert(edited_flow_set(orig[u2].to_set(), p2, u2, true) =~= edited_flow_set(
                            orig[u2].to_set(),
                            p1,
                            u2,
                            true,
                        ).remove(v));
                    } else {
                        assert(edited_flow_set(orig[u2].to_set(), p2, u2, false)
                            =~= edited_flow_set(orig[u2].to_set(), p1, u2, false).insert(v));
                    }
                    assert(before[u2].to_set() == edited_flow_set(orig[u2].to_set(), p1, u2, erase));
                } else {
                    assert(now[u2] == before[u2]);
                    assert(edited_flow_set(orig[u2].to_set(), p2, u2, erase) =~= edited_flow_set(
                        orig[u2].to_set(),
                        p1,
                        u2,
                        erase,
                    ));
                }
            }
            let nl = w.flow_map.flows@[ui]@;
            assert forall|kk: int|
                0 <= kk < nl.len() implies ((#[trigger] nl[kk]) as int) < n && nl[kk] as int != ui by {
                let x = nl[kk];
                assert(nl.contains(x));
                if before[ui].contains(x) {
                    let k0 = choose|k0: int| 0 <= k0 < before[ui].len() && before[ui][k0] == x;
                } else {
                    assert(x == v);
                }
            }
        }
        k = k + 1;
    }
    proof {
        assert(p.subrange(0, p.len() as int) =~= p);
    }
}

} // verus!
