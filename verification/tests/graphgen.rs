use netconquest::geom::Pos;
use netconquest::graph::{ComputerGraph, ComputerNode};
use netconquest::pathfind::shortest_path;
use netconquest::resolver::hover;
use netconquest::{CONNECT_DIST, DEFAULT_NODE_COUNT, MIN_SPACING, PICK_RADIUS};

fn line_samples() -> Vec<Pos> {
    vec![
        Pos { x: 0, y: 0 },
        Pos { x: 400, y: 0 },
        Pos { x: 740, y: 0 },
    ]
}

#[test]
fn from_samples_builds_proximity_edges() {
    let samples = line_samples();
    let g = ComputerGraph::from_samples(&samples, 3).expect("three spaced samples place");
    assert_eq!(g.nodes.len(), 3);
    assert_eq!(g.nodes[0].position, Pos { x: 0, y: 0 });
    assert_eq!(g.nodes[1].position, Pos { x: 400, y: 0 });
    assert_eq!(g.nodes[2].position, Pos { x: 740, y: 0 });
    // 0-1 at distance 400 and 1-2 at 340 lie under the connect threshold;
    // 0-2 at 740 does not.
    assert!(g.adj[0].contains(&1));
    assert!(g.adj[1].contains(&0));
    assert!(g.adj[1].contains(&2));
    assert!(g.adj[2].contains(&1));
    assert!(!g.adj[0].contains(&2));
    assert!(!g.adj[2].contains(&0));
}

#[test]
fn from_samples_rejects_cramped_candidates() {
    // The second candidate sits closer than the minimum spacing and is
    // skipped; the third is accepted.
    let samples = vec![
        Pos { x: 0, y: 0 },
        Pos { x: MIN_SPACING - 1, y: 0 },
        Pos { x: 600, y: 0 },
    ];
    let g = ComputerGraph::from_samples(&samples, 3).expect("two spaced samples remain");
    assert_eq!(g.nodes.len(), 2);
    assert_eq!(g.nodes[1].position, Pos { x: 600, y: 0 });
}

#[test]
fn from_samples_fails_below_two_nodes() {
    // Every candidate collides with the first: a degenerate graph is an
    // error, not a silent one-node world.
    let samples = vec![
        Pos { x: 0, y: 0 },
        Pos { x: 10, y: 10 },
        Pos { x: 150, y: 0 },
    ];
    assert!(ComputerGraph::from_samples(&samples, 3).is_none());
    assert!(ComputerGraph::from_samples(&Vec::new(), 5).is_none());
}

#[test]
fn repair_joins_far_components() {
    // Two clusters farther apart than the connect threshold: generation
    // must still hand back a single connected component.
    let samples = vec![
        Pos { x: -700, y: 0 },
        Pos { x: -400, y: 0 },
        Pos { x: 400, y: 0 },
        Pos { x: 700, y: 0 },
    ];
    let g = ComputerGraph::from_samples(&samples, 4).expect("four spaced samples place");
    assert_eq!(g.nodes.len(), 4);
    for start in 0..4 {
        let t = g.traverse(start);
        assert_eq!(t.reached, 4, "every node sees the whole graph");
    }
    // The repair edge joins the closest cross pair, -400 to 400.
    assert!(g.adj[1].contains(&2));
    assert!(g.adj[2].contains(&1));
}

#[test]
fn random_generation_is_connected() {
    // Runs the real random generator: whatever it draws, the graph must be
    // well-formed and one single component of at least two nodes.
    for _ in 0..5 {
        let g = ComputerGraph::random().expect("default generation places enough nodes");
        let n = g.nodes.len();
        assert!(2 <= n && n <= DEFAULT_NODE_COUNT);
        for i in 0..n {
            let p = g.nodes[i].position;
            assert!(-800 <= p.x && p.x < 800 && -800 <= p.y && p.y < 800);
            for j in 0..n {
                if i != j {
                    let (dx, dy) = (p.x - g.nodes[j].position.x, p.y - g.nodes[j].position.y);
                    assert!(dx * dx + dy * dy >= MIN_SPACING * MIN_SPACING);
                }
            }
            let t = g.traverse(i);
            assert_eq!(t.reached, n);
        }
    }
}

#[test]
fn shortest_path_walks_the_line() {
    let samples = line_samples();
    let g = ComputerGraph::from_samples(&samples, 3).unwrap();
    assert_eq!(shortest_path(&g, 0, 2), vec![0, 1, 2]);
    assert_eq!(shortest_path(&g, 2, 0), vec![2, 1, 0]);
    assert_eq!(shortest_path(&g, 0, 1), vec![0, 1]);
    assert_eq!(shortest_path(&g, 1, 1), vec![1]);
}

#[test]
fn shortest_path_empty_when_unreachable() {
    // A hand-built graph with no edges at all.
    let g = ComputerGraph {
        nodes: vec![
            ComputerNode { position: Pos { x: 0, y: 0 } },
            ComputerNode { position: Pos { x: 700, y: 0 } },
        ],
        adj: vec![Vec::new(), Vec::new()],
    };
    assert_eq!(shortest_path(&g, 0, 1), Vec::<usize>::new());
}

#[test]
fn shortest_path_is_hop_minimal() {
    // A square with no diagonal: both ways around take two hops, and the
    // returned path must not be longer than that.
    let samples = vec![
        Pos { x: 0, y: 0 },
        Pos { x: 350, y: 0 },
        Pos { x: 0, y: 350 },
        Pos { x: 350, y: 350 },
    ];
    let g = ComputerGraph::from_samples(&samples, 4).expect("square places");
    assert!(!g.adj[0].contains(&3), "the diagonal is over the connect threshold");
    let p = shortest_path(&g, 0, 3);
    assert_eq!(p.len(), 3);
    assert_eq!(p[0], 0);
    assert_eq!(p[2], 3);
    assert!(p[1] == 1 || p[1] == 2);
}

#[test]
fn hover_picks_nearest_within_radius() {
    let samples = line_samples();
    let g = ComputerGraph::from_samples(&samples, 3).unwrap();
    assert_eq!(hover(&g, Pos { x: 10, y: 5 }), Some(0));
    assert_eq!(hover(&g, Pos { x: 390, y: 0 }), Some(1));
    // Exactly on the radius is outside: the pick is strict.
    assert_eq!(hover(&g, Pos { x: PICK_RADIUS, y: 0 }), None);
    assert_eq!(hover(&g, Pos { x: PICK_RADIUS - 1, y: 0 }), Some(0));
    // Far from everything: no hover.
    assert_eq!(hover(&g, Pos { x: -600, y: -600 }), None);
    // The connect threshold itself is strict too: 450 would not join.
    assert!(CONNECT_DIST * CONNECT_DIST > 400 * 400);
}
