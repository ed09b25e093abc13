//! The command resolver: turns resolved pointer input and button events into
//! the two player actions — select a source node, and edit the flow map
//! along the displayed path.  Every lookup degrades to "no selection" rather
//! than failing; stale selections self-heal here at the start of each tick.

use vstd::prelude::*;

use crate::flow::{edit_flow, edited_flow_set};
use crate::geom::{dist_sq, dist_sq_exec, in_loose_bounds, Pos};
use crate::graph::ComputerGraph;
use crate::pathfind::shortest_path;
use crate::world::{lists_view, WorldState};
use crate::{Owner, PICK_RADIUS};

verus! {

/// One tick's worth of resolved player input: the node under the pointer
/// (if any), whether the two buttons were just pressed, and whether the
/// erase modifier is held.
#[derive(Clone, Copy)]
pub struct InputState {
    pub hover: Option<usize>,
    pub primary: bool,
    pub secondary: bool,
    pub erase: bool,
}

/// Nearest-node query within the pick radius: the closest node strictly
/// within `PICK_RADIUS` of the pointer, ties going to the smaller handle.
pub fn hover(g: &ComputerGraph, pos: Pos) -> (r: Option<usize>)
    requires
        g.wf(),
        in_loose_bounds(pos),
    ensures
        (r is Some) <==> exists|j: int|
            0 <= j < g.n() && #[trigger] dist_sq(g.nodes@[j].position, pos) < PICK_RADIUS
                * PICK_RADIUS,
        r matches Some(h) ==> {
            &&& (h as int) < g.n()
            &&& dist_sq(g.nodes@[h as int].position, pos) < PICK_RADIUS * PICK_RADIUS
            &&& forall|j: int|
                0 <= j < (h as int) ==> #[trigger] dist_sq(g.nodes@[j].position, pos) > dist_sq(
                    g.nodes@[h as int].position,
                    pos,
                )
            &&& forall|j: int|
                (h as int) < j < g.n() ==> #[trigger] dist_sq(g.nodes@[j].position, pos) >= dist_sq(
                    g.nodes@[h as int].position,
                    pos,
                )
        },
{
    let n = g.nodes.len();
    let mut found = false;
    let mut best_i: usize = 0;
    let mut best_d: i64 = PICK_RADIUS * PICK_RADIUS;
    let mut i: usize = 0;
    while i < n
        invariant
            i <= n,
            n == g.n(),
            g.wf(),
            in_loose_bounds(pos),
            found ==> (best_i as int) < i && best_d == dist_sq(
                g.nodes@[best_i as int].position,
                pos,
            ) && best_d < PICK_RADIUS * PICK_RADIUS,
            !found ==> best_d == PICK_RADIUS * PICK_RADIUS,
            !found ==> forall|j: int|
                0 <= j < i ==> #[trigger] dist_sq(g.nodes@[j].position, pos) >= PICK_RADIUS
                    * PICK_RADIUS,
            found ==> forall|j: int|
                0 <= j < (best_i as int) ==> #[trigger] dist_sq(g.nodes@[j].position, pos)
                    > best_d,
            found ==> forall|j: int|
                (best_i as int) < j < i ==> #[trigger] dist_sq(g.nodes@[j].position, pos)
                    >= best_d,
        decreases n - i,
    {
        let d = dist_sq_exec(g.nodes[i].position, pos);
        if d < best_d {
            found = true;
            best_i = i;
            best_d = d;
        }
        i = i + 1;
    }
    if found {
        Some(best_i)
    } else {
        None
    }
}

/// The hovered handle after validation: an out-of-range handle degrades to
/// no hover.
pub open spec fn hovered_after(w: WorldState, hov: Option<usize>) -> Option<usize> {
    match hov {
        Some(h) => if (h as int) < w.n() {
            Some(h)
        } else {
            None
        },
        None => None,
    }
}

/// The selection after the tick: a stale selection (gone or no longer
/// player-owned) clears itself; then a primary press selects the hovered
/// node if the player owns it, keeps the selection on any other node, and
/// clears it on empty space.
pub open spec fn selection_after(w: WorldState, input: InputState) -> Option<usize> {
    let kept = match w.interaction.selected_source {
        Some(s) => if (s as int) < w.n() && w.nodes@[s as int].owner == Owner::Player {
            Some(s)
        } else {
            None
        },
        None => None,
    };
    if input.primary {
        match hovered_after(w, input.hover) {
            Some(h) => if w.nodes@[h as int].owner == Owner::Player {
                Some(h)
            } else {
                kept
            },
            None => None,
        }
    } else {
        kept
    }
}

/// What the displayed path must be: with a source and a distinct hovered
/// node it is a real walk between them when one exists — and a hop-count
/// shortest one, no walk between the two being shorter — and empty when
/// none exists; in every other situation it is empty.
pub open spec fn path_ok(
    w: WorldState,
    sel: Option<usize>,
    hov: Option<usize>,
    path: Seq<usize>,
) -> bool {
    match (sel, hov) {
        (Some(s), Some(h)) => if s != h {
            &&& (w.graph.reachable(s as int, h as int) ==> w.graph.is_path_between(
                path,
                s as int,
                h as int,
            ) && (forall|q: Seq<usize>|
                #[trigger] w.graph.is_path_between(q, s as int, h as int) ==> path.len()
                    <= q.len()))
            &&& (!w.graph.reachable(s as int, h as int) ==> path.len() == 0)
        } else {
            path.len() == 0
        },
        _ => path.len() == 0,
    }
}

/// Resolve one tick of player input, in order: record the hovered node,
/// self-heal the selection, apply a primary press, recompute the displayed
/// path, and on a secondary press edit the flow map along that path.
pub fn handle_interaction(w: &mut WorldState, input: InputState)
    requires
        old(w).wf(),
    ensures
        final(w).wf(),
        final(w).graph == old(w).graph,
        final(w).nodes == old(w).nodes,
        final(w).ai_targets == old(w).ai_targets,
        final(w).packets == old(w).packets,
        final(w).ai_elapsed == old(w).ai_elapsed,
        final(w).interaction.hovered_node == hovered_after(*old(w), input.hover),
        final(w).interaction.selected_source == selection_after(*old(w), input),
        path_ok(
            *old(w),
            selection_after(*old(w), input),
            hovered_after(*old(w), input.hover),
            final(w).interaction.path@,
        ),
        forall|u: int|
            0 <= u < old(w).n() ==> lists_view(final(w).flow_map.flows)[u].to_set() == (if input.secondary {
                edited_flow_set(
                    lists_view(old(w).flow_map.flows)[u].to_set(),
                    final(w).interaction.path@,
                    u,
                    input.erase,
                )
            } else {
                lists_view(old(w).flow_map.flows)[u].to_set()
            }),
{
    let ghost w0 = *old(w);
    let n = w.graph.nodes.len();
    let hov: Option<usize> = match input.hover {
        Some(h) => if h < n {
            Some(h)
        } else {
            None
        },
        None => None,
    };
    w.interaction.hovered_node = hov;
    let sel0 = w.interaction.selected_source;
    let mut sel: Option<usize> = match sel0 {
        Some(s) => if s < n && w.nodes[s].owner == Owner::Player {
            Some(s)
        } else {
            None
        },
        None => None,
    };
    if input.primary {
        match hov {
            Some(h) => {
                if w.nodes[h].owner == Owner::Player {
                    sel = Some(h);
                }
            },
            None => {
                sel = None;
            },
        }
    }
    w.interaction.selected_source = sel;
    let path: Vec<usize> = match (sel, hov) {
        (Some(s), Some(h)) => if s != h {
            shortest_path(&w.graph, s, h)
        } else {
            Vec::new()
        },
        _ => Vec::new(),
    };
    w.interaction.path = path;
    proof {
        assert(w.wf());
    }
    if input.secondary {
        edit_flow(w, input.erase);
    }
}

} // verus!
