//! A*: a min-priority frontier ordered by accumulated cost plus a
//! heuristic estimate to the goal; relaxation compares accumulated-cost
//! candidates.  The aggressive variant raises the heuristic to a high
//! power so it dominates the cost term and the search behaves close to
//! greedy best-first.

use vstd::prelude::*;
use crate::algorithms::{AlgorithmInUse, PathfindingNode};
use crate::frontier::pop_min;
use crate::grid::{
    build_nodes, cell_reachable, chain_positions_ok, goal_pos_eff, grid_dims, heap_elem_ok,
    heap_ok, last_end_pos, lemma_cell_reachable_to_tiles, lemma_distinct_cells_distinct_ids,
    lemma_last_end_is_end, lemma_open_cell_is_open_tile, lemma_path_chain_to_tiles,
    lemma_reach_refl, lemma_reach_step, lemma_reflect_at, lemma_update_cell, node_at,
    node_path_chain, node_reflects_tile, nodes_fresh, open_cell_id, out_ok, out_ok_away,
    positions_ok, prev_adj,
    prev_ok, recon_chain_ok, same_statics, start_pos, tile_path_chain, tile_reachable,
};
use crate::heuristic::{hscore, sat_add};
use crate::node::Node;
use crate::policy::{
    adj_step, dims_ok, dir_ok, handle_world_wrap_for_coords, king_delta, rotated_directions,
};
use crate::rng::shuffle_directions;
use crate::tile::{open_at, open_tile_id, tile_at_pos, tile_id_at, tiles_wf, Tile, TileType};

verus! {

/// Builds the node array from the snapshot and runs A* (or, with
/// `is_aggressive`, the heuristic-dominated variant) from the tile
/// carrying `current_tile_id` toward the `End` tile.  Returns the
/// expansion order and the goal-to-start path; no wall tile ever
/// appears in either.
pub fn setup_and_run_astar(
    grid: &Vec<Tile>,
    current_tile_id: usize,
    is_aggressive: bool,
    algo: &AlgorithmInUse,
    rng: &mut rand::rngs::StdRng,
    row_count: usize,
    col_count: usize,
) -> (res: (Vec<PathfindingNode>, Vec<PathfindingNode>))
    requires
        dims_ok(row_count as int, col_count as int),
        tiles_wf(grid@, row_count as int, col_count as int),
        algo.direction_offset < 8,
    ensures
        forall|k: int|
            0 <= k < res.0@.len() ==> open_tile_id(grid@, (#[trigger] res.0@[k]).tile_id as int),
        forall|k: int|
            0 <= k < res.1@.len() ==> open_tile_id(grid@, (#[trigger] res.1@[k]).tile_id as int),
        res.1@.len() > 0 && last_end_pos(grid@) is Some ==> exists|i: int|
            0 <= i < grid@.len() && (#[trigger] grid@[i]).tile_type == TileType::End
                && res.1@[0].tile_id == grid@[i].id,
        ({
            let sp = start_pos(grid@, current_tile_id as int);
            let gp = goal_pos_eff(grid@);
            &&& (open_at(grid@, sp.0, sp.1) && sp != gp ==> res.0@.len() > 0 && res.0@[0].tile_id
                == tile_id_at(grid@, sp.0, sp.1))
            &&& (!open_at(grid@, sp.0, sp.1) ==> res.0@.len() == 0 && res.1@.len() == 0)
            &&& (sp == gp ==> res.0@.len() == 0 && res.1@.len() == 0)
            &&& tile_path_chain(
                grid@,
                algo.world_wrap_enabled,
                row_count as int,
                col_count as int,
                sp,
                gp,
                res.1@,
            )
            &&& (!tile_reachable(
                grid@,
                algo.world_wrap_enabled,
                row_count as int,
                col_count as int,
                sp,
                gp,
            ) ==> res.1@.len() == 0)
            &&& (last_end_pos(grid@) is Some ==> forall|k: int|
                0 <= k < res.0@.len() ==> (#[trigger] res.0@[k]).tile_id as int != tile_id_at(
                    grid@,
                    gp.0,
                    gp.1,
                ))
        }),
{
    let (nodes, end_tile_pos, current_tile_pos) = build_nodes(
        grid,
        row_count,
        col_count,
        current_tile_id,
    );
    let ghost nodes0 = nodes@;
    let res = astar(
        nodes,
        current_tile_pos,
        end_tile_pos,
        is_aggressive,
        algo,
        rng,
        row_count,
        col_count,
    );
    proof {
        let rc = row_count as int;
        let cc = col_count as int;
        assert forall|k: int| 0 <= k < res.0@.len() implies open_tile_id(
            grid@,
            (#[trigger] res.0@[k]).tile_id as int,
        ) by {
            lemma_open_cell_is_open_tile(nodes0, grid@, rc, cc, res.0@[k].tile_id as int);
        }
        assert forall|k: int| 0 <= k < res.1@.len() implies open_tile_id(
            grid@,
            (#[trigger] res.1@[k]).tile_id as int,
        ) by {
            lemma_open_cell_is_open_tile(nodes0, grid@, rc, cc, res.1@[k].tile_id as int);
        }
        if res.1@.len() > 0 && last_end_pos(grid@) is Some {
            let p = end_tile_pos.unwrap();
            lemma_last_end_is_end(grid@, (p.0 as int, p.1 as int));
            let i = choose|i: int|
                0 <= i < grid@.len() && tile_at_pos(#[trigger] grid@[i], p.0 as int, p.1 as int)
                    && grid@[i].tile_type == TileType::End;
            assert(node_reflects_tile(nodes0, grid@[i]));
        }
        let sp = start_pos(grid@, current_tile_id as int);
        lemma_reflect_at(nodes0, grid@, rc, cc, sp.0, sp.1);
        assert((current_tile_pos.0 as int, current_tile_pos.1 as int) == sp);
        match end_tile_pos {
            Some(p) => {
                assert(goal_pos_eff(grid@) == (p.0 as int, p.1 as int));
            },
            None => {
                assert(goal_pos_eff(grid@) == (0int, 0int));
            },
        }
        let gp = goal_pos_eff(grid@);
        let wrapg = algo.world_wrap_enabled;
        lemma_path_chain_to_tiles(nodes0, grid@, wrapg, rc, cc, sp, gp, res.1@);
        if !tile_reachable(grid@, wrapg, rc, cc, sp, gp) {
            if cell_reachable(nodes0, wrapg, rc, cc, sp, gp) {
                lemma_cell_reachable_to_tiles(nodes0, grid@, wrapg, rc, cc, sp, gp);
            }
            assert(res.1@.len() == 0);
        }
        if last_end_pos(grid@) is Some {
            assert forall|k: int|
                0 <= k < res.0@.len() implies (#[trigger] res.0@[k]).tile_id as int
                != tile_id_at(grid@, gp.0, gp.1) by {
                let (r, c) = choose|r: int, c: int|
                    0 <= r < rc && 0 <= c < cc && !(r == gp.0 && c == gp.1) && (
                    #[trigger] node_at(nodes0, r, c)).tile_id == (
                    #[trigger] res.0@[k]).tile_id && !node_at(nodes0, r, c).is_wall;
                lemma_reflect_at(nodes0, grid@, rc, cc, r, c);
                lemma_reflect_at(nodes0, grid@, rc, cc, gp.0, gp.1);
                lemma_distinct_cells_distinct_ids(nodes0, grid@, rc, cc, (r, c), gp);
            }
        }
    }
    res
}

/// Examines every neighbor of one expanded node and relaxes those the
/// move improves, recording the move as the neighbor's predecessor and
/// pushing the improved candidate onto the frontier.
#[verifier::rlimit(100)]
#[verifier::loop_isolation(false)]
fn relax_neighbors(
    grid: &mut Vec<Vec<Node>>,
    heap: &mut Vec<Node>,
    node: Node,
    end_pos: (usize, usize),
    is_aggressive: bool,
    directions: &Vec<(isize, isize)>,
    algo: &AlgorithmInUse,
    row_count: usize,
    col_count: usize,
    Ghost(nodes0): Ghost<Seq<Vec<Node>>>,
    Ghost(spg): Ghost<(int, int)>,
)
    requires
        dims_ok(row_count as int, col_count as int),
        grid_dims(old(grid)@, row_count as int, col_count as int),
        same_statics(nodes0, old(grid)@, row_count as int, col_count as int),
        heap_ok(old(grid)@, row_count as int, col_count as int, old(heap)@),
        prev_ok(old(grid)@, row_count as int, col_count as int),
        prev_adj(old(grid)@, algo.world_wrap_enabled, row_count as int, col_count as int),
        forall|k: int|
            0 <= k < old(heap)@.len() ==> ({
                let e = #[trigger] old(heap)@[k];
                (e.row as int, e.col as int) == spg || cell_reachable(
                nodes0,
                algo.world_wrap_enabled,
                row_count as int,
                col_count as int,
                spg,
                (e.row as int, e.col as int),
            )
            }),
        forall|r: int, c: int|
            0 <= r < row_count && 0 <= c < col_count && (#[trigger] node_at(
                old(grid)@,
                r,
                c,
            )).previous_node is Some ==> cell_reachable(
                nodes0,
                algo.world_wrap_enabled,
                row_count as int,
                col_count as int,
                spg,
                (r, c),
            ),
        node.row < row_count,
        node.col < col_count,
        end_pos.0 < row_count,
        end_pos.1 < col_count,
        positions_ok(old(grid)@, row_count as int, col_count as int),
        cell_reachable(
            nodes0,
            algo.world_wrap_enabled,
            row_count as int,
            col_count as int,
            spg,
            (node.row as int, node.col as int),
        ),
        forall|k: int| 0 <= k < directions@.len() ==> dir_ok(#[trigger] directions@[k]),
    ensures
        grid_dims(final(grid)@, row_count as int, col_count as int),
        same_statics(nodes0, final(grid)@, row_count as int, col_count as int),
        heap_ok(final(grid)@, row_count as int, col_count as int, final(heap)@),
        prev_ok(final(grid)@, row_count as int, col_count as int),
        prev_adj(final(grid)@, algo.world_wrap_enabled, row_count as int, col_count as int),
        forall|k: int|
            0 <= k < final(heap)@.len() ==> ({
                let e = #[trigger] final(heap)@[k];
                (e.row as int, e.col as int) == spg || cell_reachable(
                    nodes0,
                    algo.world_wrap_enabled,
                    row_count as int,
                    col_count as int,
                    spg,
                    (e.row as int, e.col as int),
                )
            }),
        forall|j: int|
            0 <= j < old(heap)@.len() ==> final(heap)@[j] == old(heap)@[j],
        final(heap)@.len() >= old(heap)@.len(),
        forall|r: int, c: int|
            0 <= r < row_count && 0 <= c < col_count && (#[trigger] node_at(
                final(grid)@,
                r,
                c,
            )).previous_node is Some ==> cell_reachable(
                nodes0,
                algo.world_wrap_enabled,
                row_count as int,
                col_count as int,
                spg,
                (r, c),
            ),
{
    let ghost rc = row_count as int;
    let ghost cc = col_count as int;
    let ghost heap0 = heap@;
        let mut d: usize = 0;
        while d < directions.len()
            invariant
                grid_dims(grid@, rc, cc),
                same_statics(nodes0, grid@, rc, cc),
                positions_ok(grid@, rc, cc),
                heap_ok(grid@, rc, cc, heap@),
                prev_ok(grid@, rc, cc),
                prev_adj(grid@, algo.world_wrap_enabled, rc, cc),
                forall|k: int|
                    0 <= k < heap@.len() ==> (((#[trigger] heap@[k]).row as int, heap@[k].col
                        as int) == spg || cell_reachable(
                        nodes0,
                        algo.world_wrap_enabled,
                        rc,
                        cc,
                        spg,
                        (heap@[k].row as int, heap@[k].col as int),
                    )),
                heap@.len() >= heap0.len(),
                forall|j: int| 0 <= j < heap0.len() ==> heap@[j] == heap0[j],
                forall|r: int, c: int|
                    0 <= r < rc && 0 <= c < cc && (#[trigger] node_at(
                        grid@,
                        r,
                        c,
                    )).previous_node is Some ==> cell_reachable(
                        nodes0,
                        algo.world_wrap_enabled,
                        rc,
                        cc,
                        spg,
                        (r, c),
                    ),
                d <= directions@.len(),
            decreases directions@.len() - d,
        {
            let (dr, dc) = directions[d];
            let maybe = handle_world_wrap_for_coords(
                algo,
                (node.row, node.col),
                (dr, dc),
                row_count,
                col_count,
            );
            if let Some((visit_row, visit_col)) = maybe {
                if !grid[visit_row][visit_col].is_wall {
                    let adr: isize = if dr < 0 {
                        -dr
                    } else {
                        dr
                    };
                    let adc: isize = if dc < 0 {
                        -dc
                    } else {
                        dc
                    };
                    let directional_distance: usize = if adr + adc == 2 {
                        14
                    } else {
                        10
                    };
                    let potential_g = sat_add(node.g_score, directional_distance);
                    let h_score = hscore(
                        (visit_row, visit_col),
                        end_pos,
                        algo.world_wrap_enabled,
                        is_aggressive,
                        row_count,
                        col_count,
                    );
                    let cn = grid[visit_row][visit_col];
                    if potential_g < cn.g_score {
                        let mut upd = cn;
                        upd.distance = sat_add(potential_g, h_score);
                        upd.g_score = potential_g;
                        upd.previous_node = Some((node.row, node.col));
                        upd.visited = false;
                        let ghost prev_nodes2 = grid@;
                        grid[visit_row][visit_col] = upd;
                        proof {
                            lemma_update_cell(
                                prev_nodes2,
                                grid@,
                                rc,
                                cc,
                                visit_row as int,
                                visit_col as int,
                                upd,
                            );
                            assert(node_at(prev_nodes2, visit_row as int, visit_col as int) == cn);
                            assert(upd.row == visit_row && upd.col == visit_col);
                            assert(king_delta(dr as int, dc as int));
                            assert(adj_step(
                                algo.world_wrap_enabled,
                                (node.row as int, node.col as int),
                                (visit_row as int, visit_col as int),
                                rc,
                                cc,
                            ));
                            assert(!node_at(
                                nodes0,
                                visit_row as int,
                                visit_col as int,
                            ).is_wall);
                            lemma_reach_step(
                                nodes0,
                                algo.world_wrap_enabled,
                                rc,
                                cc,
                                spg,
                                (node.row as int, node.col as int),
                                (visit_row as int, visit_col as int),
                            );
                            crate::grid::lemma_update_keeps_prev_invs(
                                nodes0,
                                prev_nodes2,
                                grid@,
                                algo.world_wrap_enabled,
                                rc,
                                cc,
                                spg,
                                visit_row as int,
                                visit_col as int,
                            );
                            assert forall|k: int| 0 <= k < heap@.len() implies heap_elem_ok(
                                grid@,
                                rc,
                                cc,
                                #[trigger] heap@[k],
                            ) by {
                                let e = heap@[k];
                                assert(heap_elem_ok(prev_nodes2, rc, cc, e));
                                if e.row == visit_row && e.col == visit_col {
                                    assert(node_at(grid@, e.row as int, e.col as int) == upd);
                                } else {
                                    assert(node_at(grid@, e.row as int, e.col as int) == node_at(
                                        prev_nodes2,
                                        e.row as int,
                                        e.col as int,
                                    ));
                                }
                            }
                            assert(heap_elem_ok(grid@, rc, cc, upd));
                        }
                        heap.push(upd);
                        proof {
                            assert forall|k: int| 0 <= k < heap@.len() implies heap_elem_ok(
                                grid@,
                                rc,
                                cc,
                                #[trigger] heap@[k],
                            ) by {
                                if k < heap@.len() - 1 {
                                } else {
                                    assert(heap@[k] == upd);
                                }
                            }
                        }
                    }
                }
            }
            d = d + 1;
        }
}

/// The search proper, over a freshly built node array.  The returned
/// visited order and path carry only identities of non-wall cells of
/// the array the search started from.
#[verifier::rlimit(100)]
#[verifier::spinoff_prover]
#[verifier::loop_isolation(false)]
fn astar(
    grid: Vec<Vec<Node>>,
    current_tile_pos: (usize, usize),
    end_tile_pos: Option<(usize, usize)>,
    is_aggressive: bool,
    algo: &AlgorithmInUse,
    rng: &mut rand::rngs::StdRng,
    row_count: usize,
    col_count: usize,
) -> (res: (Vec<PathfindingNode>, Vec<PathfindingNode>))
    requires
        dims_ok(row_count as int, col_count as int),
        grid_dims(grid@, row_count as int, col_count as int),
        nodes_fresh(grid@, row_count as int, col_count as int),
        algo.direction_offset < 8,
        current_tile_pos.0 < row_count,
        current_tile_pos.1 < col_count,
        match end_tile_pos {
            Some(p) => p.0 < row_count && p.1 < col_count,
            None => true,
        },
    ensures
        out_ok(grid@, row_count as int, col_count as int, res.0@),
        out_ok(grid@, row_count as int, col_count as int, res.1@),
        res.1@.len() > 0 ==> res.1@[0].tile_id == node_at(
            grid@,
            match end_tile_pos {
                Some(p) => p.0 as int,
                None => 0,
            },
            match end_tile_pos {
                Some(p) => p.1 as int,
                None => 0,
            },
        ).tile_id,
        ({
            let sp = (current_tile_pos.0 as int, current_tile_pos.1 as int);
            let ep = match end_tile_pos {
                Some(p) => (p.0 as int, p.1 as int),
                None => (0int, 0int),
            };
            let sn = node_at(grid@, sp.0, sp.1);
            &&& (!sn.is_wall && sp != ep ==> res.0@.len() > 0 && res.0@[0].tile_id == sn.tile_id)
            &&& (sn.is_wall ==> res.0@.len() == 0 && res.1@.len() == 0)
            &&& (sp == ep ==> res.0@.len() == 0 && res.1@.len() == 0)
            &&& out_ok_away(grid@, row_count as int, col_count as int, ep, res.0@)
            &&& node_path_chain(
                grid@,
                algo.world_wrap_enabled,
                row_count as int,
                col_count as int,
                sp,
                ep,
                res.1@,
            )
            &&& (!cell_reachable(
                grid@,
                algo.world_wrap_enabled,
                row_count as int,
                col_count as int,
                sp,
                ep,
            ) ==> res.1@.len() == 0)
        }),
{
    let ghost rc = row_count as int;
    let ghost cc = col_count as int;
    let ghost nodes0 = grid@;
    let mut grid = grid;
    let mut heap: Vec<Node> = Vec::new();
    let mut visited_order: Vec<PathfindingNode> = Vec::new();

    let end_pos = match end_tile_pos {
        Some(p) => p,
        None => (0, 0),
    };
    let h_score = hscore(
        current_tile_pos,
        end_pos,
        algo.world_wrap_enabled,
        is_aggressive,
        row_count,
        col_count,
    );
    let mut start_node = grid[current_tile_pos.0][current_tile_pos.1];
    start_node.distance = h_score;
    start_node.g_score = 0;
    proof {
        assert(node_at(grid@, current_tile_pos.0 as int, current_tile_pos.1 as int).row
            == current_tile_pos.0);
        assert(heap_elem_ok(grid@, rc, cc, start_node));
    }
    heap.push(start_node);
    proof {
        assert forall|k: int| 0 <= k < heap@.len() implies heap_elem_ok(
            grid@,
            rc,
            cc,
            #[trigger] heap@[k],
        ) by {
            assert(heap@[k] == start_node);
        }
    }

    let mut directions = rotated_directions(algo.direction_offset);
    if algo.random_direction {
        shuffle_directions(rng, &mut directions);
    }
    proof {
        assert forall|k: int| 0 <= k < directions@.len() implies dir_ok(
            #[trigger] directions@[k],
        ) by {}
    }

    let ghost spg: (int, int) = (current_tile_pos.0 as int, current_tile_pos.1 as int);
    let ghost epg: (int, int) = (end_pos.0 as int, end_pos.1 as int);
    let ghost start_entry = start_node;
    let ghost start_wall = node_at(nodes0, spg.0, spg.1).is_wall;
    let ghost start_id = node_at(nodes0, spg.0, spg.1).tile_id;
    proof {
        assert(start_entry.row == current_tile_pos.0 && start_entry.col == current_tile_pos.1);
        assert(start_entry.is_wall == start_wall && start_entry.visited == start_wall);
        assert(start_entry.tile_id == start_id);
    }

    proof {
        assert((row_count as int) * (col_count as int) <= 0xFFFF * 0xFFFF) by (nonlinear_arith)
            requires
                0 <= row_count as int <= 0xFFFF,
                0 <= col_count as int <= 0xFFFF,
        ;
    }
    let n_cells: u64 = (row_count as u64) * (col_count as u64);
    proof {
        assert((n_cells + 1) * (n_cells + 1) < 0xFFFF_FFFF_FFFF_FFFF) by (nonlinear_arith)
            requires
                0 <= n_cells <= 0xFFFF * 0xFFFF,
        ;
    }
    let bound: u64 = (n_cells + 1) * (n_cells + 1);
    let mut steps: u64 = 0;

    let mut done: bool = false;
    while !done
        invariant
            grid_dims(grid@, rc, cc),
            same_statics(nodes0, grid@, rc, cc),
            heap_ok(grid@, rc, cc, heap@),
            prev_ok(grid@, rc, cc),
            out_ok(nodes0, rc, cc, visited_order@),
            steps <= bound,
            !done && visited_order@.len() == 0 && !start_wall && spg != epg ==> steps == 0
                && heap@.len() == 1 && heap@[0] == start_entry,
            start_wall || spg == epg ==> visited_order@.len() == 0 && (heap@.len() == 0 || (steps
                == 0 && heap@.len() == 1 && heap@[0] == start_entry)),
            visited_order@.len() == 0 ==> forall|r: int, c: int|
                0 <= r < rc && 0 <= c < cc ==> (#[trigger] node_at(
                    grid@,
                    r,
                    c,
                )).previous_node is None,
            visited_order@.len() > 0 ==> visited_order@[0].tile_id == start_id,
            done && !start_wall && spg != epg ==> visited_order@.len() > 0,
            prev_adj(grid@, algo.world_wrap_enabled, rc, cc),
            out_ok_away(nodes0, rc, cc, epg, visited_order@),
            forall|k: int|
                0 <= k < heap@.len() ==> (((#[trigger] heap@[k]).row, heap@[k].col)
                    == current_tile_pos || cell_reachable(
                    nodes0,
                    algo.world_wrap_enabled,
                    rc,
                    cc,
                    spg,
                    (heap@[k].row as int, heap@[k].col as int),
                )),
            forall|r: int, c: int|
                0 <= r < rc && 0 <= c < cc && (#[trigger] node_at(
                    grid@,
                    r,
                    c,
                )).previous_node is Some ==> cell_reachable(
                    nodes0,
                    algo.world_wrap_enabled,
                    rc,
                    cc,
                    spg,
                    (r, c),
                ),
        decreases bound - steps + (if done { 0int } else { 1int }),
    {
        if steps >= bound {
            proof {
                assert(bound >= 1) by (nonlinear_arith)
                    requires
                        bound == (n_cells + 1) * (n_cells + 1),
                        n_cells >= 0,
                ;
            }
            done = true;
        } else {
        steps = steps + 1;
        let ghost heap_before = heap@;
        match pop_min(&mut heap) {
            None => {
                done = true;
            },
            Some(node) => {
        proof {
            assert forall|k: int| 0 <= k < heap@.len() implies heap_elem_ok(
                grid@,
                rc,
                cc,
                #[trigger] heap@[k],
            ) by {
                let j = choose|j: int| 0 <= j < heap_before.len() && heap@[k] == heap_before[j];
                assert(heap_elem_ok(grid@, rc, cc, heap_before[j]));
            }
            crate::frontier::lemma_first_min_idx(heap_before);
            assert(node == heap_before[crate::frontier::first_min_idx(heap_before)]);
            assert(heap_elem_ok(grid@, rc, cc, node));
            assert forall|k: int|
                0 <= k < heap@.len() implies (((#[trigger] heap@[k]).row, heap@[k].col)
                == current_tile_pos || cell_reachable(
                nodes0,
                algo.world_wrap_enabled,
                rc,
                cc,
                spg,
                (heap@[k].row as int, heap@[k].col as int),
            )) by {
                let j = choose|j: int| 0 <= j < heap_before.len() && heap@[k] == heap_before[j];
            }
            if visited_order@.len() == 0 {
                assert(heap_before.len() == 1 && heap_before[0] == start_entry);
                assert(crate::frontier::first_min_idx(heap_before) == 0);
                assert(node == start_entry);
            }
        }
        if node.row == end_pos.0 && node.col == end_pos.1 {
            proof {
                if visited_order@.len() == 0 {
                    assert(node == start_entry);
                    assert(spg == epg);
                }
            }
            done = true;
        } else if node.visited || node.is_wall {
            // A stale entry, or a wall cell: nothing to expand.
        } else {

        let mut expanded = grid[node.row][node.col];
        expanded.visited = true;
        let ghost prev_nodes = grid@;
        grid[node.row][node.col] = expanded;
        proof {
            lemma_update_cell(prev_nodes, grid@, rc, cc, node.row as int, node.col as int, expanded);
            assert forall|k: int| 0 <= k < heap@.len() implies heap_elem_ok(
                grid@,
                rc,
                cc,
                #[trigger] heap@[k],
            ) by {
                let e = heap@[k];
                assert(heap_elem_ok(prev_nodes, rc, cc, e));
                if e.row == node.row && e.col == node.col {
                    assert(node_at(grid@, e.row as int, e.col as int) == expanded);
                } else {
                    assert(node_at(grid@, e.row as int, e.col as int) == node_at(
                        prev_nodes,
                        e.row as int,
                        e.col as int,
                    ));
                }
            }
            assert(!node_at(nodes0, node.row as int, node.col as int).is_wall);
            assert(node_at(nodes0, node.row as int, node.col as int).tile_id == node.tile_id);
            assert(open_cell_id(nodes0, rc, cc, node.tile_id as int));
            assert(node_at(grid@, node.row as int, node.col as int).previous_node == node_at(
                prev_nodes,
                node.row as int,
                node.col as int,
            ).previous_node);
            crate::grid::lemma_update_keeps_prev_invs(
                nodes0,
                prev_nodes,
                grid@,
                algo.world_wrap_enabled,
                rc,
                cc,
                spg,
                node.row as int,
                node.col as int,
            );
            if (node.row, node.col) == current_tile_pos {
                lemma_reach_refl(nodes0, algo.world_wrap_enabled, rc, cc, spg);
            }
            assert(cell_reachable(
                nodes0,
                algo.world_wrap_enabled,
                rc,
                cc,
                spg,
                (node.row as int, node.col as int),
            ));
        }
        visited_order.push(PathfindingNode { tile_id: node.tile_id });

        proof {
            assert forall|r: int, c: int|
                0 <= r < rc && 0 <= c < cc implies (#[trigger] node_at(grid@, r, c)).row == r
                && node_at(grid@, r, c).col == c by {
                assert(node_at(nodes0, r, c).row == r && node_at(nodes0, r, c).col == c);
            }
            assert(positions_ok(grid@, rc, cc));
        }
        relax_neighbors(
            &mut grid,
            &mut heap,
            node,
            end_pos,
            is_aggressive,
            &directions,
            algo,
            row_count,
            col_count,
            Ghost(nodes0),
            Ghost(spg),
        );
        }
            },
        }
        }
    }

    // Path reconstruction: follow predecessor pointers from the goal
    // back toward the start; the chain visits non-wall cells only.
    let path = crate::grid::reconstruct_path(
        &grid,
        end_pos,
        current_tile_pos,
        algo.world_wrap_enabled,
        row_count,
        col_count,
    );
    proof {
        assert forall|k: int| 0 <= k < path@.len() implies open_cell_id(
            nodes0,
            rc,
            cc,
            (#[trigger] path@[k]).tile_id as int,
        ) by {
            crate::grid::lemma_open_cell_transfer(nodes0, grid@, rc, cc, path@[k].tile_id as int);
        }
        assert(node_at(grid@, end_pos.0 as int, end_pos.1 as int).tile_id == node_at(
            nodes0,
            end_pos.0 as int,
            end_pos.1 as int,
        ).tile_id);
        let ps = choose|ps: Seq<(usize, usize)>|
            #[trigger] recon_chain_ok(
                grid@,
                algo.world_wrap_enabled,
                rc,
                cc,
                spg,
                epg,
                ps,
                path@,
            );
        assert forall|k: int|
            0 <= k < ps.len() implies ((#[trigger] ps[k]).0 < rc && ps[k].1 < cc && !node_at(
            nodes0,
            ps[k].0 as int,
            ps[k].1 as int,
        ).is_wall && node_at(nodes0, ps[k].0 as int, ps[k].1 as int).tile_id
            == path@[k].tile_id) by {
            assert(node_at(grid@, ps[k].0 as int, ps[k].1 as int).is_wall == node_at(
                nodes0,
                ps[k].0 as int,
                ps[k].1 as int,
            ).is_wall);
            assert(node_at(grid@, ps[k].0 as int, ps[k].1 as int).tile_id == node_at(
                nodes0,
                ps[k].0 as int,
                ps[k].1 as int,
            ).tile_id);
        }
        assert(chain_positions_ok(
            nodes0,
            algo.world_wrap_enabled,
            rc,
            cc,
            spg,
            epg,
            ps,
            path@,
        ));
        if !cell_reachable(nodes0, algo.world_wrap_enabled, rc, cc, spg, epg) {
            assert(node_at(grid@, epg.0, epg.1).previous_node is None) by {
                if node_at(grid@, epg.0, epg.1).previous_node is Some {
                    assert(cell_reachable(nodes0, algo.world_wrap_enabled, rc, cc, spg, epg));
                }
            }
            assert(path@.len() == 0);
        }
    }
    (visited_order, path)
}

} // verus!
