//! Traffic emission: each node resolves its active target set for the tick
//! (the player's flow entry for player nodes, the autonomous set for enemy
//! nodes, nothing for neutral nodes), runs down its cooldown, and on expiry
//! fires one packet at every active target at once, its reload time growing
//! linearly with the number of simultaneous targets.

use vstd::prelude::*;

use crate::geom::{dist_floor, dist_sq, lemma_sqrt_floor_lower, sqrt_floor};
use crate::world::{
    copy_list, lemma_target_list_len, lists_view, target_list_wf, GameNode, Packet, WorldState,
};
use crate::{Owner, MAX_TICK_MS, MIN_SPACING, SPAWN_INTERVAL_MS};

verus! {

/// The target set node `i` resolves for this tick.
pub open spec fn active_targets_view(w: WorldState, i: int) -> Seq<usize> {
    if w.nodes@[i].owner == Owner::Player {
        lists_view(w.flow_map.flows)[i]
    } else if w.nodes@[i].owner == Owner::Enemy {
        lists_view(w.ai_targets)[i]
    } else {
        Seq::<usize>::empty()
    }
}

/// Node `i` fires this tick: its cooldown runs out within `dt`, it has at
/// least one active target, and it is not neutral.
pub open spec fn node_fires(w: WorldState, i: int, dt: u64) -> bool {
    &&& w.nodes@[i].cooldown <= dt
    &&& active_targets_view(w, i).len() > 0
    &&& w.nodes@[i].owner != Owner::Neutral
}

/// The packet node `i` emits toward `t`: the node's allegiance, no progress
/// yet, and the straight-line distance between the two positions as length.
pub open spec fn packet_toward(w: WorldState, i: int, t: usize) -> Packet {
    Packet {
        from: i as usize,
        to: t,
        owner: w.nodes@[i].owner,
        travelled: 0,
        length: sqrt_floor(
            dist_sq(w.graph.nodes@[i].position, w.graph.nodes@[t as int].position),
        ) as u64,
    }
}

/// One packet per active target, in target-list order.
pub open spec fn spawned_for_node(w: WorldState, i: int) -> Seq<Packet> {
    Seq::new(
        active_targets_view(w, i).len(),
        |k: int| packet_toward(w, i, active_targets_view(w, i)[k]),
    )
}

/// All packets the nodes below `i` emit this tick, in node order.
pub open spec fn spawned_upto(w: WorldState, dt: u64, i: int) -> Seq<Packet>
    decreases i,
{
    if i <= 0 {
        Seq::<Packet>::empty()
    } else {
        spawned_upto(w, dt, i - 1) + (if node_fires(w, i - 1, dt) {
            spawned_for_node(w, i - 1)
        } else {
            Seq::<Packet>::empty()
        })
    }
}

/// Node `i`'s cooldown after the tick: reset to the base interval times the
/// target count on firing, otherwise run down by `dt` to a floor of zero.
pub open spec fn cooldown_after(w: WorldState, i: int, dt: u64) -> u64 {
    if node_fires(w, i, dt) {
        (SPAWN_INTERVAL_MS * active_targets_view(w, i).len()) as u64
    } else if w.nodes@[i].cooldown <= dt {
        0
    } else {
        (w.nodes@[i].cooldown - dt) as u64
    }
}

/// Run the emission stage over every node.  Ownership, health, directives
/// and earlier packets are untouched; each node's cooldown becomes
/// `cooldown_after`, and exactly the packets of `spawned_upto` are appended,
/// in node order then target order.
pub fn spawn_packets(w: &mut WorldState, dt: u64)
    requires
        old(w).wf(),
        dt <= MAX_TICK_MS,
    ensures
        final(w).wf(),
        final(w).graph == old(w).graph,
        final(w).flow_map.flows == old(w).flow_map.flows,
        final(w).ai_targets == old(w).ai_targets,
        final(w).interaction == old(w).interaction,
        final(w).ai_elapsed == old(w).ai_elapsed,
        final(w).nodes@.len() == old(w).nodes@.len(),
        forall|i: int|
            0 <= i < old(w).n() ==> (#[trigger] final(w).nodes@[i]) == (GameNode {
                cooldown: cooldown_after(*old(w), i, dt),
                ..old(w).nodes@[i]
            }),
        final(w).packets@ == old(w).packets@ + spawned_upto(*old(w), dt, old(w).n()),
{
    let ghost w0 = *old(w);
    let n = w.graph.nodes.len();
    let mut i: usize = 0;
    proof {
        assert(w0.packets@ + spawned_upto(w0, dt, 0) =~= w0.packets@);
    }
    while i < n
        invariant
            w.wf(),
            i <= n,
            n == w0.n(),
            w0.wf(),
            dt <= MAX_TICK_MS,
            w.graph == w0.graph,
            w.flow_map.flows == w0.flow_map.flows,
            w.ai_targets == w0.ai_targets,
            w.interaction == w0.interaction,
            w.ai_elapsed == w0.ai_elapsed,
            w.nodes@.len() == n,
            forall|j: int| i <= j < n ==> (#[trigger] w.nodes@[j]) == w0.nodes@[j],
            forall|j: int|
                0 <= j < i ==> (#[trigger] w.nodes@[j]) == (GameNode {
                    cooldown: cooldown_after(w0, j, dt),
                    ..w0.nodes@[j]
                }),
            w.packets@ == w0.packets@ + spawned_upto(w0, dt, i as int),
        decreases n - i,
    {
        let node = w.nodes[i];
        let targets: Vec<usize> = if node.owner == Owner::Player {
            copy_list(&w.flow_map.flows[i])
        } else if node.owner == Owner::Enemy {
            copy_list(&w.ai_targets[i])
        } else {
            Vec::new()
        };
        proof {
            assert(targets@ == active_targets_view(w0, i as int));
            assert(target_list_wf(targets@, i as int, w0.n()));
        }
        let ticked = if node.cooldown <= dt {
            0
        } else {
            node.cooldown - dt
        };
        if ticked == 0 && targets.len() > 0 && node.owner != Owner::Neutral {
            let cnt = targets.len();
            proof {
                lemma_target_list_len(targets@, i as int, n as int);
            }
            let new_cd = SPAWN_INTERVAL_MS * (cnt as u64);
            w.nodes[i] = GameNode { cooldown: new_cd, ..node };
            let ghost packets_before = w.packets@;
            let mut k: usize = 0;
            while k < cnt
                invariant
                    w.wf(),
                    i < n,
                    n == w0.n(),
                    w0.wf(),
                    k <= cnt,
                    w.graph == w0.graph,
                    w.flow_map.flows == w0.flow_map.flows,
                    w.ai_targets == w0.ai_targets,
                    w.interaction == w0.interaction,
                    w.ai_elapsed == w0.ai_elapsed,
                    w.nodes@.len() == n,
                    forall|j: int| i < j < n ==> (#[trigger] w.nodes@[j]) == w0.nodes@[j],
                    forall|j: int|
                        0 <= j < i ==> (#[trigger] w.nodes@[j]) == (GameNode {
                            cooldown: cooldown_after(w0, j, dt),
                            ..w0.nodes@[j]
                        }),
                    node == w0.nodes@[i as int],
                    w.nodes@[i as int] == (GameNode { cooldown: new_cd, ..node }),
                    cnt == targets@.len(),
                    targets@ == active_targets_view(w0, i as int),
                    target_list_wf(targets@, i as int, w0.n()),
                    w.packets@ == packets_before + spawned_for_node(w0, i as int).subrange(
                        0,
                        k as int,
                    ),
                decreases cnt - k,
            {
                let t = targets[k];
                let ghost pk = w.packets@;
                let length = dist_floor(w.graph.nodes[i].position, w.graph.nodes[t].position);
                proof {
                    assert(t != i);
                    assert(dist_sq(
                        w0.graph.nodes@[i as int].position,
                        w0.graph.nodes@[t as int].position,
                    ) >= MIN_SPACING * MIN_SPACING);
                    lemma_sqrt_floor_lower(
                        dist_sq(
                            w0.graph.nodes@[i as int].position,
                            w0.graph.nodes@[t as int].position,
                        ),
                        MIN_SPACING as int,
                    );
                }
                w.packets.push(
                    Packet { from: i, to: t, owner: node.owner, travelled: 0, length: length as u64 },
                );
                proof {
                    assert(w.packets@.last() == packet_toward(w0, i as int, t));
                    assert(spawned_for_node(w0, i as int).subrange(0, k as int + 1)
                        =~= spawned_for_node(w0, i as int).subrange(0, k as int).push(
                        packet_toward(w0, i as int, t),
                    ));
                    assert(w.packets@ =~= packets_before + spawned_for_node(
                        w0,
                        i as int,
                    ).subrange(0, k as int + 1));
                }
                k = k + 1;
            }
            proof {
                assert(spawned_for_node(w0, i as int).subrange(0, cnt as int) =~= spawned_for_node(
                    w0,
                    i as int,
                ));
                assert(node_fires(w0, i as int, dt));
                assert(w.packets@ =~= w0.packets@ + spawned_upto(w0, dt, i as int + 1));
                assert(cooldown_after(w0, i as int, dt) == new_cd);
            }
        } else {
            w.nodes[i] = GameNode { cooldown: ticked, ..node };
            proof {
                assert(!node_fires(w0, i as int, dt));
                assert(spawned_upto(w0, dt, i as int + 1) =~= spawned_upto(w0, dt, i as int));
                assert(cooldown_after(w0, i as int, dt) == ticked);
            }
        }
        i = i + 1;
    }
    proof {
        assert(i as int == w0.n());
    }
}

} // verus!
