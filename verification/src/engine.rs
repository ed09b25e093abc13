//! One simulation tick, stages in their fixed order — command resolution,
//! the autonomous policy, traffic emission, then transit and resolution —
//! so that every later stage observes the current tick's updates of the
//! earlier stages; and the read-only snapshot the presentation layer draws.

use vstd::prelude::*;

use crate::ai::{ai_behavior, ai_behavior_with_picks, ai_fires, ai_list_after, retargeted};
use crate::emitter::{cooldown_after, spawn_packets, spawned_upto};
use crate::flow::edited_flow_set;
use crate::geom::Pos;
use crate::graph::lemma_push_contains;
use crate::resolver::{handle_interaction, hovered_after, path_ok, selection_after, InputState};
use crate::transit::{move_packets, transit_fold};
use crate::world::{lists_view, GameNode, Packet, WorldState};
use crate::{Owner, MAX_HP, MAX_TICK_MS};

verus! {

/// What the command-resolver stage leaves behind: the contract of
/// `handle_interaction`, read as a relation between the worlds before and
/// after it.
pub open spec fn resolver_stage(w0: WorldState, input: InputState, w1: WorldState) -> bool {
    &&& w1.graph == w0.graph
    &&& w1.nodes == w0.nodes
    &&& w1.ai_targets == w0.ai_targets
    &&& w1.packets == w0.packets
    &&& w1.ai_elapsed == w0.ai_elapsed
    &&& w1.interaction.hovered_node == hovered_after(w0, input.hover)
    &&& w1.interaction.selected_source == selection_after(w0, input)
    &&& path_ok(
        w0,
        selection_after(w0, input),
        hovered_after(w0, input.hover),
        w1.interaction.path@,
    )
    &&& forall|u: int|
        0 <= u < w0.n() ==> lists_view(w1.flow_map.flows)[u].to_set() == (if input.secondary {
            edited_flow_set(
                lists_view(w0.flow_map.flows)[u].to_set(),
                w1.interaction.path@,
                u,
                input.erase,
            )
        } else {
            lists_view(w0.flow_map.flows)[u].to_set()
        })
}

/// What the autonomous-policy stage leaves behind under unknown draws: the
/// contract of `ai_behavior` as a relation.
pub open spec fn ai_stage(w1: WorldState, dt: u64, w2: WorldState) -> bool {
    &&& w2.graph == w1.graph
    &&& w2.nodes == w1.nodes
    &&& w2.flow_map.flows == w1.flow_map.flows
    &&& w2.interaction == w1.interaction
    &&& w2.packets == w1.packets
    &&& w2.ai_elapsed == (if ai_fires(w1, dt) {
        0
    } else {
        (w1.ai_elapsed + dt) as u64
    })
    &&& (ai_fires(w1, dt) ==> w2.ai_targets@.len() == w1.n() && forall|i: int|
        0 <= i < w1.n() ==> retargeted(w1, #[trigger] lists_view(w2.ai_targets)[i], i))
    &&& (!ai_fires(w1, dt) ==> w2.ai_targets == w1.ai_targets)
}

/// The same stage under given draws: the contract of
/// `ai_behavior_with_picks` as a relation.
pub open spec fn ai_stage_with_picks(
    w1: WorldState,
    dt: u64,
    picks: Seq<usize>,
    w2: WorldState,
) -> bool {
    &&& w2.graph == w1.graph
    &&& w2.nodes == w1.nodes
    &&& w2.flow_map.flows == w1.flow_map.flows
    &&& w2.interaction == w1.interaction
    &&& w2.packets == w1.packets
    &&& w2.ai_elapsed == (if ai_fires(w1, dt) {
        0
    } else {
        (w1.ai_elapsed + dt) as u64
    })
    &&& (ai_fires(w1, dt) ==> w2.ai_targets@.len() == w1.n() && forall|i: int|
        0 <= i < w1.n() ==> (#[trigger] lists_view(w2.ai_targets)[i]) == ai_list_after(
            w1,
            i,
            picks[i],
        ))
    &&& (!ai_fires(w1, dt) ==> w2.ai_targets == w1.ai_targets)
}

/// What the traffic-emission stage leaves behind: the contract of
/// `spawn_packets` as a relation.
pub open spec fn emitter_stage(w2: WorldState, dt: u64, w3: WorldState) -> bool {
    &&& w3.graph == w2.graph
    &&& w3.flow_map.flows == w2.flow_map.flows
    &&& w3.ai_targets == w2.ai_targets
    &&& w3.interaction == w2.interaction
    &&& w3.ai_elapsed == w2.ai_elapsed
    &&& w3.nodes@.len() == w2.nodes@.len()
    &&& forall|i: int|
        0 <= i < w2.n() ==> (#[trigger] w3.nodes@[i]) == (GameNode {
            cooldown: cooldown_after(w2, i, dt),
            ..w2.nodes@[i]
        })
    &&& w3.packets@ == w2.packets@ + spawned_upto(w2, dt, w2.n())
}

/// What the transit-and-resolution stage leaves behind: the contract of
/// `move_packets` as a relation.
pub open spec fn transit_stage(w3: WorldState, dt: u64, w4: WorldState) -> bool {
    let r = transit_fold(
        w3.nodes@,
        lists_view(w3.flow_map.flows),
        lists_view(w3.ai_targets),
        w3.packets@,
        Seq::<Packet>::empty(),
        dt,
    );
    &&& w4.graph == w3.graph
    &&& w4.interaction == w3.interaction
    &&& w4.ai_elapsed == w3.ai_elapsed
    &&& w4.nodes@ == r.nodes
    &&& lists_view(w4.flow_map.flows) == r.flows
    &&& lists_view(w4.ai_targets) == r.ai
    &&& w4.packets@ == r.kept
}

/// One tick is the four stages in their fixed order, with the worlds
/// between the stages spelled out: resolution, then the autonomous policy,
/// then emission, then transit.
pub open spec fn tick_stages(
    w0: WorldState,
    input: InputState,
    dt: u64,
    w1: WorldState,
    w2: WorldState,
    w3: WorldState,
    w4: WorldState,
) -> bool {
    &&& resolver_stage(w0, input, w1)
    &&& ai_stage(w1, dt, w2)
    &&& emitter_stage(w2, dt, w3)
    &&& transit_stage(w3, dt, w4)
}

/// The same composition with the autonomous draws given.
pub open spec fn tick_stages_with_picks(
    w0: WorldState,
    input: InputState,
    dt: u64,
    picks: Seq<usize>,
    w1: WorldState,
    w2: WorldState,
    w3: WorldState,
    w4: WorldState,
) -> bool {
    &&& resolver_stage(w0, input, w1)
    &&& ai_stage_with_picks(w1, dt, picks, w2)
    &&& emitter_stage(w2, dt, w3)
    &&& transit_stage(w3, dt, w4)
}

/// Advance the world by `dt` milliseconds under the given player input, by
/// running the four stages in their fixed order.  The whole tick's effect
/// is pinned by `tick_stages` over the (existentially spelled out)
/// intermediate worlds, the autonomous draws being unknown; besides that,
/// the graph never changes, the world stays well-formed — so every node's
/// health stays within `(0, MAX_HP]` — and the selection state is exactly
/// what the command resolver left, since no later stage touches it.
pub fn tick(w: &mut WorldState, input: InputState, dt: u64)
    requires
        old(w).wf(),
        dt <= MAX_TICK_MS,
    ensures
        final(w).wf(),
        final(w).graph == old(w).graph,
        final(w).nodes@.len() == old(w).nodes@.len(),
        forall|i: int| 0 <= i < final(w).n() ==> 1 <= (#[trigger] final(w).nodes@[i]).hp <= MAX_HP,
        final(w).interaction.hovered_node == hovered_after(*old(w), input.hover),
        final(w).interaction.selected_source == selection_after(*old(w), input),
        path_ok(
            *old(w),
            selection_after(*old(w), input),
            hovered_after(*old(w), input.hover),
            final(w).interaction.path@,
        ),
        exists|w1: WorldState, w2: WorldState, w3: WorldState|
            #[trigger] tick_stages(*old(w), input, dt, w1, w2, w3, *final(w)),
{
    handle_interaction(w, input);
    let ghost w1 = *w;
    ai_behavior(w, dt);
    let ghost w2 = *w;
    spawn_packets(w, dt);
    let ghost w3 = *w;
    move_packets(w, dt);
    proof {
        assert(resolver_stage(*old(w), input, w1));
        assert(ai_stage(w1, dt, w2));
        assert(emitter_stage(w2, dt, w3));
        assert(transit_stage(w3, dt, *w));
        assert(tick_stages(*old(w), input, dt, w1, w2, w3, *w));
    }
}

/// The same tick with the autonomous policy's random draws handed in, one
/// pick per node: fully deterministic, for callers that replay a schedule.
pub fn tick_with_picks(w: &mut WorldState, input: InputState, dt: u64, picks: &Vec<usize>)
    requires
        old(w).wf(),
        dt <= MAX_TICK_MS,
        picks@.len() == old(w).n(),
    ensures
        final(w).wf(),
        final(w).graph == old(w).graph,
        final(w).nodes@.len() == old(w).nodes@.len(),
        forall|i: int| 0 <= i < final(w).n() ==> 1 <= (#[trigger] final(w).nodes@[i]).hp <= MAX_HP,
        final(w).interaction.hovered_node == hovered_after(*old(w), input.hover),
        final(w).interaction.selected_source == selection_after(*old(w), input),
        path_ok(
            *old(w),
            selection_after(*old(w), input),
            hovered_after(*old(w), input.hover),
            final(w).interaction.path@,
        ),
        exists|w1: WorldState, w2: WorldState, w3: WorldState|
            #[trigger] tick_stages_with_picks(*old(w), input, dt, picks@, w1, w2, w3, *final(w)),
{
    handle_interaction(w, input);
    let ghost w1 = *w;
    ai_behavior_with_picks(w, dt, picks);
    let ghost w2 = *w;
    spawn_packets(w, dt);
    let ghost w3 = *w;
    move_packets(w, dt);
    proof {
        assert(resolver_stage(*old(w), input, w1));
        assert(ai_stage_with_picks(w1, dt, picks@, w2));
        assert(emitter_stage(w2, dt, w3));
        assert(transit_stage(w3, dt, *w));
        assert(tick_stages_with_picks(*old(w), input, dt, picks@, w1, w2, w3, *w));
    }
}

/// Read-only state for rendering, taken after a tick completes: per-node
/// position, owner and health; the in-flight packets (whose display
/// position is `travelled / length` of the way along the line from source
/// to destination); the displayed path; and every active flow pair.
pub struct Snapshot {
    pub nodes: Vec<(Pos, Owner, u32)>,
    pub packets: Vec<Packet>,
    pub active_path: Vec<usize>,
    pub active_flows: Vec<(usize, usize)>,
}

/// Assemble the snapshot.  It reports the state exactly: one entry per
/// node, the packet list as it stands, the displayed path, and a pair
/// `(u, v)` exactly for each directive `v` of each node `u`.
pub fn snapshot(w: &WorldState) -> (s: Snapshot)
    requires
        w.wf(),
    ensures
        s.nodes@.len() == w.n(),
        forall|i: int|
            0 <= i < w.n() ==> (#[trigger] s.nodes@[i]) == (
                w.graph.nodes@[i].position,
                w.nodes@[i].owner,
                w.nodes@[i].hp,
            ),
        s.packets@ == w.packets@,
        s.active_path@ == w.interaction.path@,
        forall|k: int|
            0 <= k < s.active_flows@.len() ==> ((#[trigger] s.active_flows@[k]).0 as int) < w.n()
                && lists_view(w.flow_map.flows)[s.active_flows@[k].0 as int].contains(
                s.active_flows@[k].1,
            ),
        forall|u: int, k: int|
            0 <= u < w.n() && 0 <= k < w.flow_map.flows@[u]@.len() ==> s.active_flows@.contains(
                (u as usize, #[trigger] w.flow_map.flows@[u]@[k]),
            ),
{
    let n = w.graph.nodes.len();
    let mut nodes: Vec<(Pos, Owner, u32)> = Vec::new();
    let mut i: usize = 0;
    while i < n
        invariant
            i <= n,
            n == w.n(),
            w.wf(),
            nodes@.len() == i,
            forall|j: int|
                0 <= j < i ==> (#[trigger] nodes@[j]) == (
                    w.graph.nodes@[j].position,
                    w.nodes@[j].owner,
                    w.nodes@[j].hp,
                ),
        decreases n - i,
    {
        let node = w.nodes[i];
        nodes.push((w.graph.nodes[i].position, node.owner, node.hp));
        i = i + 1;
    }
    let mut active_flows: Vec<(usize, usize)> = Vec::new();
    let mut u: usize = 0;
    while u < n
        invariant
            u <= n,
            n == w.n(),
            w.wf(),
            forall|k: int|
                0 <= k < active_flows@.len() ==> ((#[trigger] active_flows@[k]).0 as int) < w.n()
                    && lists_view(w.flow_map.flows)[active_flows@[k].0 as int].contains(
                    active_flows@[k].1,
                ),
            forall|u2: int, k: int|
                0 <= u2 < u && 0 <= k < w.flow_map.flows@[u2]@.len() ==> active_flows@.contains(
                    (u2 as usize, #[trigger] w.flow_map.flows@[u2]@[k]),
                ),
        decreases n - u,
    {
        let m = w.flow_map.flows[u].len();
        let mut k: usize = 0;
        while k < m
            invariant
                u < n,
                k <= m,
                n == w.n(),
                w.wf(),
                m == w.flow_map.flows@[u as int]@.len(),
                forall|k2: int|
                    0 <= k2 < active_flows@.len() ==> ((#[trigger] active_flows@[k2]).0 as int)
                        < w.n() && lists_view(w.flow_map.flows)[active_flows@[k2].0 as int].contains(
                        active_flows@[k2].1,
                    ),
                forall|u2: int, k2: int|
                    0 <= u2 < u && 0 <= k2 < w.flow_map.flows@[u2]@.len() ==> active_flows@.contains(
                        (u2 as usize, #[trigger] w.flow_map.flows@[u2]@[k2]),
                    ),
                forall|k2: int|
                    0 <= k2 < k ==> active_flows@.contains(
                        (u, #[trigger] w.flow_map.flows@[u as int]@[k2]),
                    ),
            decreases m - k,
        {
            let v = w.flow_map.flows[u][k];
            let ghost before = active_flows@;
            active_flows.push((u, v));
            proof {
                assert(active_flows@[active_flows@.len() - 1] == (u, v));
                assert(lists_view(w.flow_map.flows)[u as int].contains(v));
                assert forall|u2: int, k2: int|
                    0 <= u2 < u && 0 <= k2 < w.flow_map.flows@[u2]@.len() implies active_flows@.contains(
                    (u2 as usize, #[trigger] w.flow_map.flows@[u2]@[k2]),
                ) by {
                    lemma_push_contains(before, (u, v), (u2 as usize, w.flow_map.flows@[u2]@[k2]));
                }
                assert forall|k2: int|
                    0 <= k2 < k + 1 implies active_flows@.contains(
                    (u, #[trigger] w.flow_map.flows@[u as int]@[k2]),
                ) by {
                    lemma_push_contains(before, (u, v), (u, w.flow_map.flows@[u as int]@[k2]));
                }
            }
            k = k + 1;
        }
        u = u + 1;
    }
    Snapshot {
        nodes,
        packets: crate::world::copy_packets(&w.packets),
        active_path: crate::world::copy_list(&w.interaction.path),
        active_flows,
    }
}

/// A packet arrival never leaves health at or below zero, and never above
/// `MAX_HP`: healing clamps at the maximum, damage that would exhaust a
/// node instead captures it and resets its health.
pub proof fn lemma_health_never_stays_zero(node: GameNode, pkt_owner: Owner)
    requires
        1 <= node.hp <= MAX_HP,
    ensures
        1 <= crate::world::node_after_hit(node, pkt_owner).hp <= MAX_HP,
{
}

} // verus!
