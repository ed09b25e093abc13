//! Packet transit and resolution: every in-flight packet advances at
//! constant real speed (so longer edges take proportionally longer), and a
//! packet that completes its edge is destroyed and resolved, in order,
//! against the destination node's state as it is at that moment.

use vstd::prelude::*;

use crate::world::{
    hit_captures, lists_view, node_after_hit, packet_wf, process_hit, GameNode, Packet, WorldState,
};
use crate::MAX_TICK_MS;

verus! {

/// The state transit acts on, as mathematical views: node records, the two
/// directive tables, and the packets that remain in flight.
pub struct TransitView {
    pub nodes: Seq<GameNode>,
    pub flows: Seq<Seq<usize>>,
    pub ai: Seq<Seq<usize>>,
    pub kept: Seq<Packet>,
}

/// Process pending packets front to back: a packet whose advance reaches its
/// length is destroyed and resolved against the destination's current state;
/// any other packet is kept with its progress advanced by `dt`.
pub open spec fn transit_fold(
    nodes: Seq<GameNode>,
    flows: Seq<Seq<usize>>,
    ai: Seq<Seq<usize>>,
    pending: Seq<Packet>,
    kept: Seq<Packet>,
    dt: u64,
) -> TransitView
    decreases pending.len(),
{
    if pending.len() == 0 {
        TransitView { nodes, flows, ai, kept }
    } else {
        let p = pending[0];
        let rest = pending.subrange(1, pending.len() as int);
        if p.travelled + dt >= p.length {
            let target = nodes[p.to as int];
            let nodes2 = nodes.update(p.to as int, node_after_hit(target, p.owner));
            let flows2 = if hit_captures(target, p.owner) {
                flows.update(p.to as int, Seq::<usize>::empty())
            } else {
                flows
            };
            let ai2 = if hit_captures(target, p.owner) {
                ai.update(p.to as int, Seq::<usize>::empty())
            } else {
                ai
            };
            transit_fold(nodes2, flows2, ai2, rest, kept, dt)
        } else {
            transit_fold(
                nodes,
                flows,
                ai,
                rest,
                kept.push(Packet { travelled: (p.travelled + dt) as u64, ..p }),
                dt,
            )
        }
    }
}

/// Advance all packets by `dt` and resolve arrivals in order.  The final
/// node records, directive tables and surviving packets are exactly the
/// front-to-back fold of the arrival state machine over the packet list.
pub fn move_packets(w: &mut WorldState, dt: u64)
    requires
        old(w).wf(),
        dt <= MAX_TICK_MS,
    ensures
        final(w).wf(),
        final(w).graph == old(w).graph,
        final(w).interaction == old(w).interaction,
        final(w).ai_elapsed == old(w).ai_elapsed,
        ({
            let r = transit_fold(
                old(w).nodes@,
                lists_view(old(w).flow_map.flows),
                lists_view(old(w).ai_targets),
                old(w).packets@,
                Seq::<Packet>::empty(),
                dt,
            );
            &&& final(w).nodes@ == r.nodes
            &&& lists_view(final(w).flow_map.flows) == r.flows
            &&& lists_view(final(w).ai_targets) == r.ai
            &&& final(w).packets@ == r.kept
        }),
{
    let ghost w0 = *old(w);
    let ghost goal = transit_fold(
        w0.nodes@,
        lists_view(w0.flow_map.flows),
        lists_view(w0.ai_targets),
        w0.packets@,
        Seq::<Packet>::empty(),
        dt,
    );
    let total = w.packets.len();
    let mut kept: Vec<Packet> = Vec::new();
    let mut i: usize = 0;
    proof {
        assert(w0.packets@.subrange(0, total as int) =~= w0.packets@);
    }
    while i < total
        invariant
            w.wf(),
            i <= total,
            total == w0.packets@.len(),
            w.packets == w0.packets,
            w.graph == w0.graph,
            w.interaction == w0.interaction,
            w.ai_elapsed == w0.ai_elapsed,
            dt <= MAX_TICK_MS,
            forall|k: int| 0 <= k < kept@.len() ==> packet_wf(#[trigger] kept@[k], w0.n()),
            transit_fold(
                w.nodes@,
                lists_view(w.flow_map.flows),
                lists_view(w.ai_targets),
                w0.packets@.subrange(i as int, total as int),
                kept@,
                dt,
            ) == goal,
        decreases total - i,
    {
        let ghost pend = w0.packets@.subrange(i as int, total as int);
        let p = w.packets[i];
        proof {
            assert(pend[0] == p);
            assert(pend.subrange(1, pend.len() as int) =~= w0.packets@.subrange(
                i as int + 1,
                total as int,
            ));
            assert(packet_wf(p, w0.n()));
        }
        if p.length - p.travelled <= dt {
            process_hit(w, p.to, p.owner);
        } else {
            kept.push(Packet { travelled: p.travelled + dt, ..p });
        }
        i = i + 1;
    }
    proof {
        assert(w0.packets@.subrange(total as int, total as int).len() == 0);
    }
    w.packets = kept;
}

} // verus!
