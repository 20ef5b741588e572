//! An event-emitting Dijkstra variant over a wall-less grid with unit
//! edge costs: besides the expansion (`Visited`) events it reports every
//! neighbor examination (`Checked`), the trace a visualizer replays.

use vstd::prelude::*;
use crate::frontier::pop_min;
use crate::grid::{
    build_nodes, grid_dims, heap_elem_ok, heap_ok, known_cell_id, lemma_known_cell_is_known_tile,
    lemma_update_cell, node_at, nodes_fresh, same_statics,
};
use crate::heuristic::sat_add;
use crate::node::Node;
use crate::policy::{dims_ok, rotated_directions};
use crate::tile::{known_tile_id, open_at, tile_id_at, tiles_wf, Tile};

verus! {

/// One trace event: a cell was expanded, or examined as a neighbor.
#[derive(Clone, Copy, PartialEq, Eq, Structural, Debug)]
pub struct DijkstraOutput {
    pub tile_id: usize,
    pub event_type: DijkstraEventType,
}

#[derive(Clone, Copy, PartialEq, Eq, Structural, Debug)]
pub enum DijkstraEventType {
    Visited,
    Checked,
}

/// Every event of `out` names a cell of `nodes`.
pub open spec fn events_ok(nodes: Seq<Vec<Node>>, rc: int, cc: int, out: Seq<DijkstraOutput>) -> bool {
    forall|k: int|
        0 <= k < out.len() ==> known_cell_id(nodes, rc, cc, (#[trigger] out[k]).tile_id as int)
}

/// Builds the node array from the snapshot and runs the unit-cost
/// Dijkstra trace from the tile carrying `current_tile_id` toward the
/// `End` tile.  Every returned event names a tile of the snapshot.
pub fn setup_and_run_dijkstra(
    grid: &Vec<Tile>,
    current_tile_id: usize,
    row_count: usize,
    col_count: usize,
) -> (out: Vec<DijkstraOutput>)
    requires
        dims_ok(row_count as int, col_count as int),
        tiles_wf(grid@, row_count as int, col_count as int),
    ensures
        forall|k: int|
            0 <= k < out@.len() ==> known_tile_id(grid@, (#[trigger] out@[k]).tile_id as int),
        ({
            let sp = crate::grid::start_pos(grid@, current_tile_id as int);
            &&& (open_at(grid@, sp.0, sp.1) && crate::grid::last_end_pos(grid@) != Some(sp)
                ==> out@.len() > 0 && out@[0].tile_id == tile_id_at(grid@, sp.0, sp.1)
                && out@[0].event_type == DijkstraEventType::Visited)
            &&& (!open_at(grid@, sp.0, sp.1) ==> out@.len() == 0)
            &&& (crate::grid::last_end_pos(grid@) == Some(sp) ==> out@.len() == 0)
        }),
{
    let (nodes, end_tile_pos, current_tile_pos) = build_nodes(
        grid,
        row_count,
        col_count,
        current_tile_id,
    );
    let ghost nodes0 = nodes@;
    let out = dijkstra(nodes, current_tile_pos, end_tile_pos, row_count, col_count);
    proof {
        assert forall|k: int| 0 <= k < out@.len() implies known_tile_id(
            grid@,
            (#[trigger] out@[k]).tile_id as int,
        ) by {
            lemma_known_cell_is_known_tile(
                nodes0,
                grid@,
                row_count as int,
                col_count as int,
                out@[k].tile_id as int,
            );
        }
        let sp = crate::grid::start_pos(grid@, current_tile_id as int);
        crate::grid::lemma_reflect_at(
            nodes0,
            grid@,
            row_count as int,
            col_count as int,
            sp.0,
            sp.1,
        );
        assert((current_tile_pos.0 as int, current_tile_pos.1 as int) == sp);
        if crate::grid::last_end_pos(grid@) == Some(sp) {
            let p = end_tile_pos.unwrap();
            assert(p.0 == current_tile_pos.0 && p.1 == current_tile_pos.1);
        }
        if open_at(grid@, sp.0, sp.1) && crate::grid::last_end_pos(grid@) != Some(sp) {
            assert(end_tile_pos != Some(current_tile_pos)) by {
                if end_tile_pos == Some(current_tile_pos) {
                    let p = end_tile_pos.unwrap();
                    assert(crate::grid::last_end_pos(grid@) == Some((p.0 as int, p.1 as int)));
                }
            }
        }
    }
    out
}

/// The trace proper: expansion and neighbor-check events in the order
/// they happen, stopping when the goal is popped or the frontier runs
/// dry.
#[verifier::loop_isolation(false)]
fn dijkstra(
    nodes: Vec<Vec<Node>>,
    current_tile_pos: (usize, usize),
    end_tile_pos: Option<(usize, usize)>,
    row_count: usize,
    col_count: usize,
) -> (out: Vec<DijkstraOutput>)
    requires
        dims_ok(row_count as int, col_count as int),
        grid_dims(nodes@, row_count as int, col_count as int),
        nodes_fresh(nodes@, row_count as int, col_count as int),
        current_tile_pos.0 < row_count,
        current_tile_pos.1 < col_count,
    ensures
        events_ok(nodes@, row_count as int, col_count as int, out@),
        ({
            let sn = node_at(nodes@, current_tile_pos.0 as int, current_tile_pos.1 as int);
            &&& (!sn.is_wall && end_tile_pos != Some(current_tile_pos) ==> out@.len() > 0
                && out@[0] == (DijkstraOutput {
                tile_id: sn.tile_id,
                event_type: DijkstraEventType::Visited,
            }))
            &&& (sn.is_wall ==> out@.len() == 0)
            &&& (end_tile_pos == Some(current_tile_pos) ==> out@.len() == 0)
        }),
{
    let ghost rc = row_count as int;
    let ghost cc = col_count as int;
    let ghost nodes0 = nodes@;
    let mut nodes = nodes;
    let mut heap: Vec<Node> = Vec::new();
    let mut event_order: Vec<DijkstraOutput> = Vec::new();

    let mut start_node = nodes[current_tile_pos.0][current_tile_pos.1];
    start_node.distance = 0;
    proof {
        assert(node_at(nodes@, current_tile_pos.0 as int, current_tile_pos.1 as int).row
            == current_tile_pos.0);
        assert(heap_elem_ok(nodes@, rc, cc, start_node));
    }
    heap.push(start_node);
    proof {
        assert forall|k: int| 0 <= k < heap@.len() implies heap_elem_ok(
            nodes@,
            rc,
            cc,
            #[trigger] heap@[k],
        ) by {
            assert(heap@[k] == start_node);
        }
    }

    let directions = rotated_directions(0);

    let ghost start_entry = start_node;
    let ghost start_wall = node_at(nodes0, current_tile_pos.0 as int, current_tile_pos.1 as int).is_wall;
    let ghost start_id = node_at(nodes0, current_tile_pos.0 as int, current_tile_pos.1 as int).tile_id;
    let ghost start_event = DijkstraOutput { tile_id: start_id, event_type: DijkstraEventType::Visited };
    proof {
        assert(start_entry.row == current_tile_pos.0 && start_entry.col == current_tile_pos.1);
        assert(start_entry.is_wall == start_wall && start_entry.visited == start_wall);
        assert(start_entry.tile_id == start_id);
    }

    proof {
        assert((row_count as int) * (col_count as int) <= 0xFFFF * 0xFFFF) by (nonlinear_arith)
            requires
                0 <= row_count as int <= 0xFFFF,
                0 <= col_count as int <= 0xFFFF,
        ;
    }
    let n_cells: u64 = (row_count as u64) * (col_count as u64);
    proof {
        assert((n_cells + 1) * (n_cells + 1) < 0xFFFF_FFFF_FFFF_FFFF) by (nonlinear_arith)
            requires
                0 <= n_cells <= 0xFFFF * 0xFFFF,
        ;
    }
    let bound: u64 = (n_cells + 1) * (n_cells + 1);
    let mut steps: u64 = 0;

    let mut done: bool = false;
    while !done
        invariant
            grid_dims(nodes@, rc, cc),
            same_statics(nodes0, nodes@, rc, cc),
            heap_ok(nodes@, rc, cc, heap@),
            events_ok(nodes0, rc, cc, event_order@),
            steps <= bound,
            !done && event_order@.len() == 0 && !start_wall && end_tile_pos != Some(
                current_tile_pos,
            ) ==> steps == 0 && heap@.len() == 1 && heap@[0] == start_entry,
            start_wall || end_tile_pos == Some(current_tile_pos) ==> event_order@.len() == 0 && (
            heap@.len() == 0 || (steps == 0 && heap@.len() == 1 && heap@[0] == start_entry)),
            event_order@.len() > 0 ==> event_order@[0] == start_event,
            done && !start_wall && end_tile_pos != Some(current_tile_pos) ==> event_order@.len()
                > 0,
        decreases bound - steps + (if done { 0int } else { 1int }),
    {
        if steps >= bound {
            proof {
                assert(bound >= 1) by (nonlinear_arith)
                    requires
                        bound == (n_cells + 1) * (n_cells + 1),
                        n_cells >= 0,
                ;
            }
            done = true;
        } else {
        steps = steps + 1;
        let ghost heap_before = heap@;
        match pop_min(&mut heap) {
            None => {
                done = true;
            },
            Some(node) => {
        proof {
            assert forall|k: int| 0 <= k < heap@.len() implies heap_elem_ok(
                nodes@,
                rc,
                cc,
                #[trigger] heap@[k],
            ) by {
                let j = choose|j: int| 0 <= j < heap_before.len() && heap@[k] == heap_before[j];
                assert(heap_elem_ok(nodes@, rc, cc, heap_before[j]));
            }
            crate::frontier::lemma_first_min_idx(heap_before);
            assert(node == heap_before[crate::frontier::first_min_idx(heap_before)]);
            assert(heap_elem_ok(nodes@, rc, cc, node));
            if event_order@.len() == 0 {
                assert(heap_before.len() == 1 && heap_before[0] == start_entry);
                assert(crate::frontier::first_min_idx(heap_before) == 0);
                assert(node == start_entry);
            }
        }
        let mut is_goal = false;
        if let Some(end_pos) = end_tile_pos {
            if node.row == end_pos.0 && node.col == end_pos.1 {
                is_goal = true;
            }
        }
        if node.visited {
            // A stale entry, or a wall cell: nothing to expand.
        } else if is_goal {
            proof {
                if event_order@.len() == 0 {
                    assert(node == start_entry);
                    assert(end_tile_pos == Some(current_tile_pos));
                }
            }
            done = true;
        } else {

        proof {
            assert(node_at(nodes0, node.row as int, node.col as int).tile_id == node.tile_id);
            assert(known_cell_id(nodes0, rc, cc, node.tile_id as int));
        }
        event_order.push(
            DijkstraOutput { tile_id: node.tile_id, event_type: DijkstraEventType::Visited },
        );

        let mut d: usize = 0;
        while d < directions.len()
            invariant
                grid_dims(nodes@, rc, cc),
                same_statics(nodes0, nodes@, rc, cc),
                heap_ok(nodes@, rc, cc, heap@),
                events_ok(nodes0, rc, cc, event_order@),
                d <= directions@.len(),
                event_order@.len() > 0,
                event_order@[0] == start_event,
            decreases directions@.len() - d,
        {
            let (dr, dc) = directions[d];
            let visit_row_i = node.row as isize + dr;
            let visit_col_i = node.col as isize + dc;
            if visit_row_i >= 0 && visit_row_i < row_count as isize && visit_col_i >= 0
                && visit_col_i < col_count as isize {
                let visit_row = visit_row_i as usize;
                let visit_col = visit_col_i as usize;
                let cn = nodes[visit_row][visit_col];
                proof {
                    assert(cn == node_at(nodes@, visit_row as int, visit_col as int));
                    assert(node_at(nodes0, visit_row as int, visit_col as int).tile_id
                        == cn.tile_id);
                    assert(known_cell_id(nodes0, rc, cc, cn.tile_id as int));
                }
                let new_distance = sat_add(node.distance, 1);
                event_order.push(
                    DijkstraOutput { tile_id: cn.tile_id, event_type: DijkstraEventType::Checked },
                );
                if new_distance < cn.distance {
                    let mut upd = cn;
                    upd.distance = new_distance;
                    upd.previous_node = Some((node.row, node.col));
                    upd.visited = false;
                    let ghost prev_nodes = nodes@;
                    nodes[visit_row][visit_col] = upd;
                    proof {
                        lemma_update_cell(
                            prev_nodes,
                            nodes@,
                            rc,
                            cc,
                            visit_row as int,
                            visit_col as int,
                            upd,
                        );
                        assert forall|k: int| 0 <= k < heap@.len() implies heap_elem_ok(
                            nodes@,
                            rc,
                            cc,
                            #[trigger] heap@[k],
                        ) by {
                            let e = heap@[k];
                            assert(heap_elem_ok(prev_nodes, rc, cc, e));
                            if e.row == visit_row && e.col == visit_col {
                                assert(node_at(nodes@, e.row as int, e.col as int) == upd);
                            } else {
                                assert(node_at(nodes@, e.row as int, e.col as int) == node_at(
                                    prev_nodes,
                                    e.row as int,
                                    e.col as int,
                                ));
                            }
                        }
                        assert(heap_elem_ok(nodes@, rc, cc, upd));
                    }
                    heap.push(upd);
                    proof {
                        assert forall|k: int| 0 <= k < heap@.len() implies heap_elem_ok(
                            nodes@,
                            rc,
                            cc,
                            #[trigger] heap@[k],
                        ) by {
                            if k < heap@.len() - 1 {
                            } else {
                                assert(heap@[k] == upd);
                            }
                        }
                    }
                }
            }
            d = d + 1;
        }
        }
            },
        }
        }
    }
    event_order
}

} // verus!
