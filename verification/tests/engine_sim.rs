use netconquest::ai::ai_behavior_with_picks;
use netconquest::emitter::spawn_packets;
use netconquest::engine::{snapshot, tick, tick_with_picks};
use netconquest::geom::Pos;
use netconquest::graph::ComputerGraph;
use netconquest::resolver::{handle_interaction, InputState};
use netconquest::transit::move_packets;
use netconquest::world::{process_hit, Packet, WorldState};
use netconquest::{
    Owner, AI_INTERVAL_MS, CAPTURE_HP, MAX_HP, NEUTRAL_START_HP, SPAWN_INTERVAL_MS,
};

/// A three-node line: player at 0, neutral at 1, enemy at 2.
fn line_world() -> WorldState {
    let samples = vec![
        Pos { x: 0, y: 0 },
        Pos { x: 400, y: 0 },
        Pos { x: 840, y: 0 },
    ];
    let g = ComputerGraph::from_samples(&samples, 3).expect("line places");
    WorldState::new(g)
}

fn no_input() -> InputState {
    InputState { hover: None, primary: false, secondary: false, erase: false }
}

#[test]
fn setup_seeds_owners_and_health() {
    let w = line_world();
    assert_eq!(w.nodes.len(), 3);
    assert_eq!(w.nodes[0].owner, Owner::Player);
    assert_eq!(w.nodes[0].hp, MAX_HP);
    assert_eq!(w.nodes[1].owner, Owner::Neutral);
    assert_eq!(w.nodes[1].hp, NEUTRAL_START_HP);
    assert_eq!(w.nodes[2].owner, Owner::Enemy);
    assert_eq!(w.nodes[2].hp, MAX_HP);
    for n in &w.nodes {
        assert_eq!(n.cooldown, SPAWN_INTERVAL_MS);
    }
    assert!(w.packets.is_empty());
    assert!(w.flow_map.flows.iter().all(|l| l.is_empty()));
}

#[test]
fn heal_clamps_at_max_hp() {
    let mut w = line_world();
    w.nodes[1].owner = Owner::Player;
    w.nodes[1].hp = 99;
    process_hit(&mut w, 1, Owner::Player);
    assert_eq!(w.nodes[1].hp, 100);
    // A second heal at the ceiling still reads exactly 100, not 101.
    process_hit(&mut w, 1, Owner::Player);
    assert_eq!(w.nodes[1].hp, 100);
    assert_eq!(w.nodes[1].owner, Owner::Player);
}

#[test]
fn heal_below_max_adds_packet_power() {
    let mut w = line_world();
    process_hit(&mut w, 1, Owner::Neutral);
    assert_eq!(w.nodes[1].hp, NEUTRAL_START_HP + 1);
}

#[test]
fn damage_subtracts_packet_power() {
    let mut w = line_world();
    process_hit(&mut w, 1, Owner::Enemy);
    assert_eq!(w.nodes[1].hp, NEUTRAL_START_HP - 1);
    assert_eq!(w.nodes[1].owner, Owner::Neutral);
}

#[test]
fn capture_flips_owner_resets_health_clears_flows() {
    let mut w = line_world();
    // A player-owned node at health 1 with its own outgoing directive.
    w.nodes[1].owner = Owner::Player;
    w.nodes[1].hp = 1;
    w.flow_map.flows[1] = vec![2];
    // One enemy damage packet of power 1 lands.
    process_hit(&mut w, 1, Owner::Enemy);
    assert_eq!(w.nodes[1].owner, Owner::Enemy);
    assert_eq!(w.nodes[1].hp, CAPTURE_HP);
    assert!(w.flow_map.flows[1].is_empty(), "conquest drops the old routing intent");
}

#[test]
fn emission_cooldown_scales_with_target_count() {
    let mut w = line_world();
    // Three simultaneous targets reload in three base intervals.
    w.flow_map.flows[0] = vec![1, 2];
    w.ai_targets[2] = vec![1];
    let mut w3 = line_world();
    w3.flow_map.flows[0] = vec![1, 2];
    spawn_packets(&mut w, SPAWN_INTERVAL_MS);
    assert_eq!(w.nodes[0].cooldown, 2 * SPAWN_INTERVAL_MS);
    assert_eq!(w.nodes[2].cooldown, SPAWN_INTERVAL_MS);
    assert_eq!(w.packets.len(), 3);
    spawn_packets(&mut w3, SPAWN_INTERVAL_MS);
    assert_eq!(w3.nodes[0].cooldown, 2 * SPAWN_INTERVAL_MS);
    // A fresh packet starts at the source with no progress.
    for p in &w.packets {
        assert_eq!(p.travelled, 0);
    }
    // Neutral nodes never emit, and an idle node's cooldown stays expired.
    assert_eq!(w.nodes[1].cooldown, 0);
}

#[test]
fn emission_cooldown_three_targets() {
    let mut w = line_world();
    w.flow_map.flows[0] = vec![1, 2];
    // A third destination: reuse the player node's neighbor list loosely —
    // the emitter tolerates non-adjacent targets.
    let samples = vec![
        Pos { x: 0, y: 0 },
        Pos { x: 400, y: 0 },
        Pos { x: 840, y: 0 },
        Pos { x: 0, y: 400 },
    ];
    let g = ComputerGraph::from_samples(&samples, 4).expect("square places");
    let mut w4 = WorldState::new(g);
    w4.flow_map.flows[0] = vec![1, 2, 3];
    spawn_packets(&mut w4, SPAWN_INTERVAL_MS);
    assert_eq!(w4.nodes[0].cooldown, 3 * SPAWN_INTERVAL_MS);
    assert_eq!(w4.packets.len(), 3);
    // One target reloads in one base interval.
    spawn_packets(&mut w, SPAWN_INTERVAL_MS);
    w.flow_map.flows[0] = vec![1];
    w.nodes[0].cooldown = 0;
    w.packets.clear();
    spawn_packets(&mut w, SPAWN_INTERVAL_MS);
    assert_eq!(w.nodes[0].cooldown, SPAWN_INTERVAL_MS);
    assert_eq!(w.packets.len(), 1);
}

#[test]
fn packet_length_is_straight_line_distance() {
    let mut w = line_world();
    w.flow_map.flows[0] = vec![1, 2];
    spawn_packets(&mut w, SPAWN_INTERVAL_MS);
    let lens: Vec<u64> = w.packets.iter().map(|p| p.length).collect();
    // Node 0 to node 1 spans 400 milli-units; node 0 to the non-adjacent
    // node 2 spans 840 — the straight line, not a graph walk.
    assert_eq!(lens, vec![400, 840]);
}

#[test]
fn transit_advances_and_resolves_on_arrival() {
    let mut w = line_world();
    w.packets.push(Packet { from: 0, to: 1, owner: Owner::Player, travelled: 0, length: 400 });
    move_packets(&mut w, 300);
    assert_eq!(w.packets.len(), 1);
    assert_eq!(w.packets[0].travelled, 300);
    assert_eq!(w.nodes[1].hp, NEUTRAL_START_HP);
    move_packets(&mut w, 100);
    assert!(w.packets.is_empty(), "an arrived packet is destroyed");
    assert_eq!(w.nodes[1].hp, NEUTRAL_START_HP - 1, "and damages the neutral destination");
}

#[test]
fn ai_pauses_below_survival_threshold() {
    let mut w = line_world();
    w.nodes[2].hp = 29;
    w.ai_targets[2] = vec![1];
    let picks = vec![0, 0, 0];
    ai_behavior_with_picks(&mut w, AI_INTERVAL_MS, &picks);
    assert!(w.ai_targets[2].is_empty(), "a hurt enemy clears its targets and holds fire");
}

#[test]
fn ai_targets_one_neighbor_on_cadence() {
    let mut w = line_world();
    let picks = vec![0, 0, 0];
    // Before the cadence runs out nothing retargets.
    ai_behavior_with_picks(&mut w, AI_INTERVAL_MS - 1, &picks);
    assert!(w.ai_targets[2].is_empty());
    // The remaining millisecond fires the policy: the enemy node aims at
    // its single neighbor; player and neutral nodes are untouched.
    ai_behavior_with_picks(&mut w, 1, &picks);
    assert_eq!(w.ai_targets[2], vec![1]);
    assert!(w.ai_targets[0].is_empty());
    assert!(w.ai_targets[1].is_empty());
}

#[test]
fn flow_edit_is_idempotent_along_path() {
    let mut w = line_world();
    let select = InputState { hover: Some(0), primary: true, secondary: false, erase: false };
    handle_interaction(&mut w, select);
    assert_eq!(w.interaction.selected_source, Some(0));
    let edit = InputState { hover: Some(2), primary: false, secondary: true, erase: false };
    handle_interaction(&mut w, edit);
    assert_eq!(w.interaction.path, vec![0, 1, 2]);
    let once = w.flow_map.flows.clone();
    assert_eq!(once[0], vec![1]);
    assert_eq!(once[1], vec![2]);
    assert!(once[2].is_empty());
    // The same edit again changes nothing beyond the first application.
    handle_interaction(&mut w, edit);
    assert_eq!(w.flow_map.flows, once);
}

#[test]
fn erase_edit_removes_pairs_and_empties_entries() {
    let mut w = line_world();
    handle_interaction(
        &mut w,
        InputState { hover: Some(0), primary: true, secondary: false, erase: false },
    );
    handle_interaction(
        &mut w,
        InputState { hover: Some(2), primary: false, secondary: true, erase: false },
    );
    assert_eq!(w.flow_map.flows[0], vec![1]);
    handle_interaction(
        &mut w,
        InputState { hover: Some(2), primary: false, secondary: true, erase: true },
    );
    assert!(w.flow_map.flows[0].is_empty(), "the emptied entry is the absent entry");
    assert!(w.flow_map.flows[1].is_empty());
}

#[test]
fn selection_rules() {
    let mut w = line_world();
    // Selecting a non-player node does nothing.
    handle_interaction(
        &mut w,
        InputState { hover: Some(2), primary: true, secondary: false, erase: false },
    );
    assert_eq!(w.interaction.selected_source, None);
    // Selecting the player's node takes.
    handle_interaction(
        &mut w,
        InputState { hover: Some(0), primary: true, secondary: false, erase: false },
    );
    assert_eq!(w.interaction.selected_source, Some(0));
    // A primary press on empty space clears the selection.
    handle_interaction(
        &mut w,
        InputState { hover: None, primary: true, secondary: false, erase: false },
    );
    assert_eq!(w.interaction.selected_source, None);
    // A stale selection self-heals once the source stops being the player's.
    handle_interaction(
        &mut w,
        InputState { hover: Some(0), primary: true, secondary: false, erase: false },
    );
    w.nodes[0].owner = Owner::Enemy;
    handle_interaction(&mut w, no_input());
    assert_eq!(w.interaction.selected_source, None);
}

#[test]
fn snapshot_reports_state_exactly() {
    let mut w = line_world();
    w.flow_map.flows[0] = vec![1];
    w.packets.push(Packet { from: 0, to: 1, owner: Owner::Player, travelled: 40, length: 400 });
    let s = snapshot(&w);
    assert_eq!(s.nodes.len(), 3);
    assert_eq!(s.nodes[0], (Pos { x: 0, y: 0 }, Owner::Player, MAX_HP));
    assert_eq!(s.nodes[1], (Pos { x: 400, y: 0 }, Owner::Neutral, NEUTRAL_START_HP));
    assert_eq!(s.packets.len(), 1);
    assert_eq!(s.packets[0].travelled, 40);
    assert_eq!(s.active_flows, vec![(0usize, 1usize)]);
    assert!(s.active_path.is_empty());
}

#[test]
fn health_stays_in_bounds_through_a_long_run() {
    // The running invariant behind every stage: health never leaves
    // (0, MAX_HP], and zero health never survives a tick.
    let mut w = line_world();
    handle_interaction(
        &mut w,
        InputState { hover: Some(0), primary: true, secondary: false, erase: false },
    );
    handle_interaction(
        &mut w,
        InputState { hover: Some(2), primary: false, secondary: true, erase: false },
    );
    let picks = vec![0, 0, 0];
    for _ in 0..200 {
        tick_with_picks(&mut w, no_input(), SPAWN_INTERVAL_MS, &picks);
        for n in &w.nodes {
            assert!(1 <= n.hp && n.hp <= MAX_HP);
        }
    }
}

#[test]
fn conquest_scenario_player_takes_the_middle_node() {
    // End to end on the fixed line A - B - Z: player A and enemy Z at full
    // health, neutral B between them.  The player routes A toward Z; the
    // edit lays flows A -> B and B -> Z.  A's packets grind B down (Z's
    // autonomous fire helps, but A lands the capturing blow); after the
    // capture, A's directive toward B remains while B's own flow entry is
    // gone until the player issues a new edit from B.
    let mut w = line_world();
    tick(
        &mut w,
        InputState { hover: Some(0), primary: true, secondary: false, erase: false },
        SPAWN_INTERVAL_MS,
    );
    assert_eq!(w.interaction.selected_source, Some(0));
    tick(
        &mut w,
        InputState { hover: Some(2), primary: false, secondary: true, erase: false },
        SPAWN_INTERVAL_MS,
    );
    assert_eq!(w.flow_map.flows[0], vec![1]);
    assert_eq!(w.flow_map.flows[1], vec![2]);
    let mut captured_at = None;
    for step in 0..80 {
        tick(&mut w, no_input(), SPAWN_INTERVAL_MS);
        if w.nodes[1].owner != Owner::Neutral {
            captured_at = Some(step);
            break;
        }
        // B is neutral, so its own flow entry must not make it fire.
        assert!(w.packets.iter().all(|p| p.from != 1));
    }
    assert!(captured_at.is_some(), "the middle node falls");
    assert_eq!(w.nodes[1].owner, Owner::Player, "the player's packet lands the capturing blow");
    assert_eq!(w.nodes[1].hp, CAPTURE_HP);
    assert_eq!(w.flow_map.flows[0], vec![1], "the attacker's directive survives the capture");
    assert!(
        w.flow_map.flows[1].is_empty(),
        "the captured node's own flow map is empty until a new edit"
    );
    // The conquest holds while the player keeps healing the node.
    for _ in 0..10 {
        tick(&mut w, no_input(), SPAWN_INTERVAL_MS);
        assert_eq!(w.nodes[1].owner, Owner::Player);
    }
}
