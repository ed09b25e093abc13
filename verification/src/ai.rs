//! The autonomous targeting policy: on a fixed cadence, every enemy-owned
//! node drops its previous targets and — unless its health is below the
//! survival threshold, a defensive pause — aims at one neighbor picked
//! uniformly at random from its full neighbor list, regardless of that
//! neighbor's ownership or health.  (An earlier greedy-swarm rule attacked
//! every non-enemy neighbor; this engine ships the random-single-target
//! policy and keeps it in one place so another policy could replace it.)

use vstd::prelude::*;

use crate::rng::random_below;
use crate::world::{lists_view, WorldState};
use crate::{Owner, AI_HEALTH_THRESHOLD, AI_INTERVAL_MS, MAX_TICK_MS};

verus! {

/// The cadence timer runs out within this tick.
pub open spec fn ai_fires(w: WorldState, dt: u64) -> bool {
    w.ai_elapsed + dt >= AI_INTERVAL_MS
}

/// What node `i`'s autonomous target list becomes when the policy fires and
/// draws `pick`: unchanged for non-enemy nodes; empty for an enemy below
/// the survival threshold or without neighbors; otherwise exactly the one
/// neighbor the draw selects.
pub open spec fn ai_list_after(w: WorldState, i: int, pick: usize) -> Seq<usize> {
    if w.nodes@[i].owner == Owner::Enemy {
        if w.nodes@[i].hp >= AI_HEALTH_THRESHOLD && w.graph.adj@[i]@.len() > 0 {
            seq![w.graph.adj@[i]@[pick as int % w.graph.adj@[i]@.len() as int]]
        } else {
            Seq::<usize>::empty()
        }
    } else {
        lists_view(w.ai_targets)[i]
    }
}

/// The list is what some draw of the policy leaves for node `i`.
pub open spec fn retargeted(w0: WorldState, targets: Seq<usize>, i: int) -> bool {
    exists|pick: usize| targets == #[trigger] ai_list_after(w0, i, pick)
}

/// The deterministic core of the policy: the same retargeting, with the
/// random draws handed in as one pick per node.  Verified for every value
/// of the picks, so nothing depends on how they were drawn.
pub fn ai_behavior_with_picks(w: &mut WorldState, dt: u64, picks: &Vec<usize>)
    requires
        old(w).wf(),
        dt <= MAX_TICK_MS,
        picks@.len() == old(w).n(),
    ensures
        final(w).wf(),
        final(w).graph == old(w).graph,
        final(w).nodes == old(w).nodes,
        final(w).flow_map.flows == old(w).flow_map.flows,
        final(w).interaction == old(w).interaction,
        final(w).packets == old(w).packets,
        final(w).ai_elapsed == (if ai_fires(*old(w), dt) {
            0
        } else {
            (old(w).ai_elapsed + dt) as u64
        }),
        ai_fires(*old(w), dt) ==> final(w).ai_targets@.len() == old(w).n() && forall|i: int|
            0 <= i < old(w).n() ==> lists_view(final(w).ai_targets)[i] == ai_list_after(
                *old(w),
                i,
                picks@[i],
            ),
        !ai_fires(*old(w), dt) ==> final(w).ai_targets == old(w).ai_targets,
{
    let ghost w0 = *old(w);
    let elapsed = w.ai_elapsed + dt;
    if elapsed < AI_INTERVAL_MS {
        w.ai_elapsed = elapsed;
        return;
    }
    w.ai_elapsed = 0;
    let n = w.graph.nodes.len();
    let mut i: usize = 0;
    while i < n
        invariant
            w.wf(),
            i <= n,
            n == w0.n(),
            w0.wf(),
            picks@.len() == n,
            w.graph == w0.graph,
            w.nodes == w0.nodes,
            w.flow_map.flows == w0.flow_map.flows,
            w.interaction == w0.interaction,
            w.packets == w0.packets,
            w.ai_elapsed == 0,
            w.ai_targets@.len() == n,
            forall|j: int| i <= j < n ==> (#[trigger] w.ai_targets@[j]) == w0.ai_targets@[j],
            forall|j: int|
                0 <= j < i ==> (#[trigger] w.ai_targets@[j])@ == ai_list_after(
                    w0,
                    j,
                    picks@[j],
                ),
        decreases n - i,
    {
        if w.nodes[i].owner == Owner::Enemy {
            let mut fresh: Vec<usize> = Vec::new();
            let deg = w.graph.adj[i].len();
            if w.nodes[i].hp >= AI_HEALTH_THRESHOLD && deg > 0 {
                let pick = picks[i] % deg;
                fresh.push(w.graph.adj[i][pick]);
            }
            w.ai_targets[i] = fresh;
            proof {
                assert(w.ai_targets@[i as int]@ == ai_list_after(w0, i as int, picks@[i as int]));
            }
        } else {
            proof {
                assert(w.ai_targets@[i as int]@ == ai_list_after(w0, i as int, picks@[i as int]));
            }
        }
        i = i + 1;
    }
}

/// Run the autonomous policy: advance its cadence timer by `dt` and, when
/// the period runs out, retarget every enemy node, each drawing its own
/// uniform pick; nothing but the enemy target lists and the timer changes.
pub fn ai_behavior(w: &mut WorldState, dt: u64)
    requires
        old(w).wf(),
        dt <= MAX_TICK_MS,
    ensures
        final(w).wf(),
        final(w).graph == old(w).graph,
        final(w).nodes == old(w).nodes,
        final(w).flow_map.flows == old(w).flow_map.flows,
        final(w).interaction == old(w).interaction,
        final(w).packets == old(w).packets,
        final(w).ai_elapsed == (if ai_fires(*old(w), dt) {
            0
        } else {
            (old(w).ai_elapsed + dt) as u64
        }),
        ai_fires(*old(w), dt) ==> final(w).ai_targets@.len() == old(w).n() && forall|i: int|
            0 <= i < old(w).n() ==> retargeted(
                *old(w),
                #[trigger] lists_view(final(w).ai_targets)[i],
                i,
            ),
        !ai_fires(*old(w), dt) ==> final(w).ai_targets == old(w).ai_targets,
{
    let n = w.graph.nodes.len();
    let mut picks: Vec<usize> = Vec::new();
    let mut i: usize = 0;
    while i < n
        invariant
            i <= n,
            n == w.graph.nodes@.len(),
            w.wf(),
            picks@.len() == i,
        decreases n - i,
    {
        let deg = w.graph.adj[i].len();
        proof {
            crate::world::lemma_target_list_len(w.graph.adj@[i as int]@, i as int, w.n());
        }
        let p = if deg > 0 {
            random_below(deg)
        } else {
            0
        };
        picks.push(p);
        i = i + 1;
    }
    let ghost w0 = *w;
    ai_behavior_with_picks(w, dt, &picks);
    proof {
        assert(w0 == *old(w));
        if ai_fires(*old(w), dt) {
            assert forall|i: int| 0 <= i < old(w).n() implies retargeted(
                *old(w),
                #[trigger] lists_view(w.ai_targets)[i],
                i,
            ) by {
                assert(lists_view(w.ai_targets)[i] == ai_list_after(*old(w), i, picks@[i]));
            }
        }
    }
}

} // verus!
