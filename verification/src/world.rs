//! World state: the generated graph plus everything mutable — per-node
//! ownership, health and cooldown, the player's persistent flow directives,
//! the autonomous targeting sets, selection state, and in-flight packets —
//! together with the packet-arrival state machine (heal, damage, capture).

use vstd::prelude::*;

use crate::graph::ComputerGraph;
use crate::{Owner, CAPTURE_HP, MAX_HP, NEUTRAL_START_HP, PACKET_POWER, SPAWN_INTERVAL_MS, AI_INTERVAL_MS};

verus! {

/// Mutable record of one graph node.
#[derive(Clone, Copy, PartialEq, Eq, Structural, Debug)]
pub struct GameNode {
    pub owner: Owner,
    pub hp: u32,
    /// Remaining time in milliseconds before the node may fire again.
    pub cooldown: u64,
}

/// An in-flight unit of traffic.  Its allegiance is fixed at spawn time; its
/// position is `travelled / length` of the way from `from` to `to`.
#[derive(Clone, Copy, PartialEq, Eq, Structural, Debug)]
pub struct Packet {
    pub from: usize,
    pub to: usize,
    pub owner: Owner,
    /// Milli-units of the straight line already covered.
    pub travelled: u64,
    /// Straight-line distance from source to destination in milli-units.
    pub length: u64,
}

/// Persistent player intent: `flows[u]` lists the destinations node `u`
/// should continuously fire into.  An empty list is an absent entry.
pub struct FlowMap {
    pub flows: Vec<Vec<usize>>,
}

/// Transient pointer/selection state read by the command resolver.
pub struct InteractionState {
    pub selected_source: Option<usize>,
    pub hovered_node: Option<usize>,
    pub path: Vec<usize>,
}

/// The whole simulation state.
pub struct WorldState {
    pub graph: ComputerGraph,
    pub nodes: Vec<GameNode>,
    pub flow_map: FlowMap,
    /// Target sets maintained by the autonomous policy for enemy nodes.
    pub ai_targets: Vec<Vec<usize>>,
    pub interaction: InteractionState,
    pub packets: Vec<Packet>,
    /// Time accumulated towards the next autonomous retargeting.
    pub ai_elapsed: u64,
}

/// The per-index sequences a list-of-lists holds.
pub open spec fn lists_view(v: Vec<Vec<usize>>) -> Seq<Seq<usize>> {
    Seq::new(v@.len(), |i: int| v@[i]@)
}

/// A target list for node `i`: valid handles, no self-targeting, no
/// duplicates.
pub open spec fn target_list_wf(l: Seq<usize>, i: int, n: int) -> bool {
    &&& forall|k: int| 0 <= k < l.len() ==> (#[trigger] l[k]) < n && l[k] as int != i
    &&& forall|k1: int, k2: int| 0 <= k1 < k2 < l.len() ==> l[k1] != l[k2]
}

/// A packet in a world of `n` nodes: distinct valid endpoints and strictly
/// unfinished travel along a positive length.
pub open spec fn packet_wf(p: Packet, n: int) -> bool {
    &&& (p.from as int) < n
    &&& (p.to as int) < n
    &&& p.from != p.to
    &&& p.travelled < p.length
    &&& p.length <= 10_000
}

impl WorldState {
    /// Number of nodes.
    pub open spec fn n(self) -> int {
        self.graph.n()
    }

    /// Global invariant: a well-formed connected graph, one record per node,
    /// health always within `(0, MAX_HP]` (zero health never persists — a
    /// capture resolves it in the same step), well-formed directive lists,
    /// valid selection state, well-formed packets, and an autonomous timer
    /// strictly inside its period.
    pub open spec fn wf(self) -> bool {
        &&& self.graph.wf()
        &&& self.graph.connected_from_zero()
        &&& 2 <= self.n()
        &&& self.nodes@.len() == self.n()
        &&& forall|i: int| 0 <= i < self.n() ==> 1 <= (#[trigger] self.nodes@[i]).hp <= MAX_HP
        &&& self.flow_map.flows@.len() == self.n()
        &&& forall|i: int|
            0 <= i < self.n() ==> target_list_wf(#[trigger] self.flow_map.flows@[i]@, i, self.n())
        &&& self.ai_targets@.len() == self.n()
        &&& forall|i: int|
            0 <= i < self.n() ==> target_list_wf(#[trigger] self.ai_targets@[i]@, i, self.n())
        &&& (self.interaction.selected_source matches Some(s) ==> (s as int) < self.n())
        &&& (self.interaction.hovered_node matches Some(h) ==> (h as int) < self.n())
        &&& (self.interaction.path@.len() > 0 ==> self.graph.is_path(self.interaction.path@))
        &&& forall|k: int| 0 <= k < self.packets@.len() ==> packet_wf(#[trigger] self.packets@[k], self.n())
        &&& self.ai_elapsed < AI_INTERVAL_MS
    }

    /// Seed the world on a generated graph: node 0 belongs to the player and
    /// the last node to the enemy, both at full health; every other node is
    /// neutral at reduced health.  No directives, no packets, no selection.
    pub fn new(graph: ComputerGraph) -> (w: WorldState)
        requires
            graph.wf(),
            graph.connected_from_zero(),
            graph.n() >= 2,
        ensures
            w.wf(),
            w.graph == graph,
            w.nodes@.len() == graph.n(),
            w.nodes@[0].owner == Owner::Player,
            w.nodes@[0].hp == MAX_HP,
            w.nodes@[w.n() - 1].owner == Owner::Enemy,
            w.nodes@[w.n() - 1].hp == MAX_HP,
            forall|i: int|
                0 < i < w.n() - 1 ==> (#[trigger] w.nodes@[i]).owner == Owner::Neutral
                    && w.nodes@[i].hp == NEUTRAL_START_HP,
            forall|i: int| 0 <= i < w.n() ==> (#[trigger] w.nodes@[i]).cooldown == SPAWN_INTERVAL_MS,
            forall|i: int| 0 <= i < w.n() ==> (#[trigger] w.flow_map.flows@[i]@).len() == 0,
            forall|i: int| 0 <= i < w.n() ==> (#[trigger] w.ai_targets@[i]@).len() == 0,
            w.packets@.len() == 0,
            w.interaction.selected_source is None,
            w.interaction.hovered_node is None,
            w.interaction.path@.len() == 0,
            w.ai_elapsed == 0,
    {
        let n = graph.nodes.len();
        let mut nodes: Vec<GameNode> = Vec::new();
        let mut i: usize = 0;
        while i < n
            invariant
                i <= n,
                n == graph.n(),
                n >= 2,
                nodes@.len() == i,
                forall|j: int|
                    0 <= j < i ==> (#[trigger] nodes@[j]).owner == (if j == 0 {
                        Owner::Player
                    } else if j == n - 1 {
                        Owner::Enemy
                    } else {
                        Owner::Neutral
                    }),
                forall|j: int|
                    0 <= j < i ==> (#[trigger] nodes@[j]).hp == (if j == 0 || j == n - 1 {
                        MAX_HP
                    } else {
                        NEUTRAL_START_HP
                    }),
                forall|j: int| 0 <= j < i ==> (#[trigger] nodes@[j]).cooldown == SPAWN_INTERVAL_MS,
            decreases n - i,
        {
            let owner = if i == 0 {
                Owner::Player
            } else if i == n - 1 {
                Owner::Enemy
            } else {
                Owner::Neutral
            };
            let hp = if i == 0 || i == n - 1 {
                MAX_HP
            } else {
                NEUTRAL_START_HP
            };
            nodes.push(GameNode { owner, hp, cooldown: SPAWN_INTERVAL_MS });
            i = i + 1;
        }
        let mut flows: Vec<Vec<usize>> = Vec::new();
        let mut ai_targets: Vec<Vec<usize>> = Vec::new();
        let mut k: usize = 0;
        while k < n
            invariant
                k <= n,
                flows@.len() == k,
                ai_targets@.len() == k,
                forall|j: int| 0 <= j < k ==> (#[trigger] flows@[j]@).len() == 0,
                forall|j: int| 0 <= j < k ==> (#[trigger] ai_targets@[j]@).len() == 0,
            decreases n - k,
        {
            flows.push(Vec::new());
            ai_targets.push(Vec::new());
            k = k + 1;
        }
        WorldState {
            graph,
            nodes,
            flow_map: FlowMap { flows },
            ai_targets,
            interaction: InteractionState {
                selected_source: None,
                hovered_node: None,
                path: Vec::new(),
            },
            packets: Vec::new(),
            ai_elapsed: 0,
        }
    }
}

/// The packet heals: its allegiance matches the destination's current owner.
pub open spec fn hit_heals(node: GameNode, pkt_owner: Owner) -> bool {
    node.owner == pkt_owner
}

/// The packet captures: it damages a node whose health it exhausts.
pub open spec fn hit_captures(node: GameNode, pkt_owner: Owner) -> bool {
    node.owner != pkt_owner && node.hp <= PACKET_POWER
}

/// The destination record after one packet arrival: heal clamped at
/// `MAX_HP`; damage; or capture with ownership flip and health reset.
pub open spec fn node_after_hit(node: GameNode, pkt_owner: Owner) -> GameNode {
    if hit_heals(node, pkt_owner) {
        GameNode {
            hp: if node.hp + PACKET_POWER > MAX_HP {
                MAX_HP
            } else {
                (node.hp + PACKET_POWER) as u32
            },
            ..node
        }
    } else if hit_captures(node, pkt_owner) {
        GameNode { owner: pkt_owner, hp: CAPTURE_HP, cooldown: node.cooldown }
    } else {
        GameNode { hp: (node.hp - PACKET_POWER) as u32, ..node }
    }
}

/// Resolve one packet arrival against the destination's current state.  The
/// only place ownership ever changes: on capture the owner flips, health
/// resets to `CAPTURE_HP`, and the node's own outgoing directives (player
/// flows and autonomous targets alike) are cleared, so conquest does not
/// inherit the previous owner's routing intent.
pub fn process_hit(w: &mut WorldState, to: usize, pkt_owner: Owner)
    requires
        old(w).wf(),
        (to as int) < old(w).n(),
    ensures
        final(w).wf(),
        final(w).graph == old(w).graph,
        final(w).interaction == old(w).interaction,
        final(w).packets == old(w).packets,
        final(w).ai_elapsed == old(w).ai_elapsed,
        final(w).nodes@ == old(w).nodes@.update(
            to as int,
            node_after_hit(old(w).nodes@[to as int], pkt_owner),
        ),
        lists_view(final(w).flow_map.flows) == (if hit_captures(
            old(w).nodes@[to as int],
            pkt_owner,
        ) {
            lists_view(old(w).flow_map.flows).update(to as int, Seq::<usize>::empty())
        } else {
            lists_view(old(w).flow_map.flows)
        }),
        lists_view(final(w).ai_targets) == (if hit_captures(old(w).nodes@[to as int], pkt_owner) {
            lists_view(old(w).ai_targets).update(to as int, Seq::<usize>::empty())
        } else {
            lists_view(old(w).ai_targets)
        }),
{
    let node = w.nodes[to];
    if node.owner == pkt_owner {
        let healed = if node.hp + PACKET_POWER > MAX_HP {
            MAX_HP
        } else {
            node.hp + PACKET_POWER
        };
        w.nodes[to] = GameNode { hp: healed, ..node };
    } else if node.hp <= PACKET_POWER {
        w.nodes[to] = GameNode { owner: pkt_owner, hp: CAPTURE_HP, cooldown: node.cooldown };
        w.flow_map.flows[to] = Vec::new();
        w.ai_targets[to] = Vec::new();
        proof {
            assert(lists_view(w.flow_map.flows) =~= lists_view(old(w).flow_map.flows).update(
                to as int,
                Seq::<usize>::empty(),
            ));
            assert(lists_view(w.ai_targets) =~= lists_view(old(w).ai_targets).update(
                to as int,
                Seq::<usize>::empty(),
            ));
        }
    } else {
        w.nodes[to] = GameNode { hp: node.hp - PACKET_POWER, ..node };
    }
    proof {
        if !hit_captures(old(w).nodes@[to as int], pkt_owner) {
            assert(lists_view(w.flow_map.flows) =~= lists_view(old(w).flow_map.flows));
            assert(lists_view(w.ai_targets) =~= lists_view(old(w).ai_targets));
        }
    }
}

/// A well-formed target list holds distinct handles below `n`, so it cannot
/// be longer than `n`.
pub proof fn lemma_target_list_len(l: Seq<usize>, i: int, n: int)
    requires
        target_list_wf(l, i, n),
        n >= 0,
    ensures
        l.len() <= n,
{
    let m = l.map_values(|x: usize| x as int);
    assert(m.no_duplicates()) by {
        assert forall|k1: int, k2: int|
            0 <= k1 < m.len() && 0 <= k2 < m.len() && k1 != k2 implies m[k1] != m[k2] by {
            if k1 < k2 {
                assert(l[k1] != l[k2]);
            } else {
                assert(l[k2] != l[k1]);
            }
        }
    }
    m.unique_seq_to_set();
    assert(m.to_set().subset_of(vstd::set_lib::set_int_range(0, n))) by {
        assert forall|x: int| m.to_set().contains(x) implies vstd::set_lib::set_int_range(
            0,
            n,
        ).contains(x) by {
            let k = choose|k: int| 0 <= k < m.len() && m[k] == x;
            assert(l[k] < n);
        }
    }
    vstd::set_lib::lemma_int_range(0, n);
    vstd::set_lib::lemma_len_subset(m.to_set(), vstd::set_lib::set_int_range(0, n));
}

/// A fresh copy of a target list, element for element.
pub fn copy_list(v: &Vec<usize>) -> (r: Vec<usize>)
    ensures
        r@ == v@,
{
    let mut r: Vec<usize> = Vec::new();
    let mut i: usize = 0;
    while i < v.len()
        invariant
            i <= v@.len(),
            r@ == v@.subrange(0, i as int),
        decreases v@.len() - i,
    {
        let ghost r0 = r@;
        r.push(v[i]);
        proof {
            assert(r@ =~= v@.subrange(0, i as int + 1));
        }
        i = i + 1;
    }
    proof {
        assert(v@.subrange(0, v@.len() as int) =~= v@);
    }
    r
}

/// A fresh copy of a packet list, element for element.
pub fn copy_packets(v: &Vec<Packet>) -> (r: Vec<Packet>)
    ensures
        r@ == v@,
{
    let mut r: Vec<Packet> = Vec::new();
    let mut i: usize = 0;
    while i < v.len()
        invariant
            i <= v@.len(),
            r@ == v@.subrange(0, i as int),
        decreases v@.len() - i,
    {
        r.push(v[i]);
        proof {
            assert(r@ =~= v@.subrange(0, i as int + 1));
        }
        i = i + 1;
    }
    proof {
        assert(v@.subrange(0, v@.len() as int) =~= v@);
    }
    r
}

} // verus!
