//! Breadth-first search: a FIFO frontier of positions with uniform unit
//! cost, so diagonal and orthogonal moves are indistinguishable; the
//! visited order is optimal in hop count only.

use vstd::prelude::*;
use std::collections::VecDeque;
use crate::algorithms::{AlgorithmInUse, PathfindingNode};
use crate::grid::{
    build_nodes, chain_positions_ok, goal_pos_eff, grid_dims, last_end_pos,
    lemma_distinct_cells_distinct_ids, lemma_last_end_is_end, lemma_open_cell_is_open_tile,
    lemma_path_chain_to_tiles, lemma_reflect_at, lemma_update_cell, node_at, node_path_chain,
    node_reflects_tile, nodes_fresh, open_cell_id, out_ok, prev_adj, prev_ok, same_statics,
    start_pos, tile_path_chain, walls_visited,
};
use crate::node::Node;
use crate::policy::{adj_step, dims_ok, dir_ok, handle_world_wrap_for_coords, rotated_directions};
use crate::rng::shuffle_directions;
use crate::tile::{open_at, open_tile_id, tile_at_pos, tile_id_at, tiles_wf, Tile, TileType};

verus! {

/// Builds the node array from the snapshot and runs breadth-first
/// search from the tile carrying `current_tile_id` toward the `End`
/// tile.  Returns the expansion order and the goal-to-start path; no
/// wall tile ever appears in either.
pub fn setup_and_run_bfs(
    grid: &Vec<Tile>,
    current_tile_id: usize,
    algo: &AlgorithmInUse,
    rng: &mut rand::rngs::StdRng,
    row_count: usize,
    col_count: usize,
) -> (res: (Vec<PathfindingNode>, Vec<PathfindingNode>))
    requires
        dims_ok(row_count as int, col_count as int),
        tiles_wf(grid@, row_count as int, col_count as int),
        algo.direction_offset < 8,
    ensures
        forall|k: int|
            0 <= k < res.0@.len() ==> open_tile_id(grid@, (#[trigger] res.0@[k]).tile_id as int),
        forall|k: int|
            0 <= k < res.1@.len() ==> open_tile_id(grid@, (#[trigger] res.1@[k]).tile_id as int),
        last_end_pos(grid@) is Some ==> res.1@.len() >= 1 && (exists|i: int|
            0 <= i < grid@.len() && (#[trigger] grid@[i]).tile_type == TileType::End
                && res.1@[0].tile_id == grid@[i].id),
        last_end_pos(grid@) is None ==> res.1@.len() == 0,
        ({
            let sp = start_pos(grid@, current_tile_id as int);
            &&& (open_at(grid@, sp.0, sp.1) ==> res.0@.len() > 0 && res.0@[0].tile_id
                == tile_id_at(grid@, sp.0, sp.1))
            &&& (!open_at(grid@, sp.0, sp.1) ==> res.0@.len() == 0)
        }),
        ({
            let gp = goal_pos_eff(grid@);
            &&& tile_path_chain(
                grid@,
                algo.world_wrap_enabled,
                row_count as int,
                col_count as int,
                gp,
                gp,
                res.1@,
            )
            &&& (last_end_pos(grid@) is Some ==> forall|k: int|
                0 <= k < res.0@.len() - 1 ==> (#[trigger] res.0@[k]).tile_id as int
                    != tile_id_at(grid@, gp.0, gp.1))
        }),
{
    let ghost rc = row_count as int;
    let ghost cc = col_count as int;
    let mut visited: Vec<usize> = Vec::new();
    let (nodes, end_tile_pos, current_tile_pos) = build_nodes(
        grid,
        row_count,
        col_count,
        current_tile_id,
    );
    let ghost nodes0 = nodes@;
    proof {
        if end_tile_pos is Some {
            let p = end_tile_pos.unwrap();
            lemma_last_end_is_end(grid@, (p.0 as int, p.1 as int));
            let i = choose|i: int|
                0 <= i < grid@.len() && tile_at_pos(#[trigger] grid@[i], p.0 as int, p.1 as int)
                    && grid@[i].tile_type == TileType::End;
            assert(node_reflects_tile(nodes0, grid@[i]));
        }
    }
    let path = bfs(
        nodes,
        current_tile_pos,
        end_tile_pos,
        &mut visited,
        algo,
        rng,
        row_count,
        col_count,
    );

    let mut visited_out: Vec<PathfindingNode> = Vec::new();
    let mut i: usize = 0;
    while i < visited.len()
        invariant
            i <= visited@.len(),
            visited_out@.len() == i,
            forall|k: int|
                0 <= k < visited@.len() ==> open_cell_id(
                    nodes0,
                    rc,
                    cc,
                    #[trigger] visited@[k] as int,
                ),
            forall|k: int|
                0 <= k < i ==> (#[trigger] visited_out@[k]).tile_id == visited@[k],
        decreases visited@.len() - i,
    {
        visited_out.push(PathfindingNode { tile_id: visited[i] });
        i = i + 1;
    }
    proof {
        assert forall|k: int| 0 <= k < visited_out@.len() implies open_tile_id(
            grid@,
            (#[trigger] visited_out@[k]).tile_id as int,
        ) by {
            lemma_open_cell_is_open_tile(nodes0, grid@, rc, cc, visited_out@[k].tile_id as int);
        }
        assert forall|k: int| 0 <= k < path@.len() implies open_tile_id(
            grid@,
            (#[trigger] path@[k]).tile_id as int,
        ) by {
            lemma_open_cell_is_open_tile(nodes0, grid@, rc, cc, path@[k].tile_id as int);
        }
        if last_end_pos(grid@) is Some {
            let p = end_tile_pos.unwrap();
            assert(node_reflects_tile(nodes0, grid@[choose|i: int|
                0 <= i < grid@.len() && tile_at_pos(#[trigger] grid@[i], p.0 as int, p.1 as int)
                    && grid@[i].tile_type == TileType::End]));
        }
        let sp = start_pos(grid@, current_tile_id as int);
        lemma_reflect_at(nodes0, grid@, rc, cc, sp.0, sp.1);
        assert((current_tile_pos.0 as int, current_tile_pos.1 as int) == sp);
        if open_at(grid@, sp.0, sp.1) {
            assert(visited_out@[0].tile_id == visited@[0]);
        }
        let gp = goal_pos_eff(grid@);
        let wrapg = algo.world_wrap_enabled;
        match end_tile_pos {
            Some(p) => {
                assert(gp == (p.0 as int, p.1 as int));
            },
            None => {
                assert(gp == (0int, 0int));
            },
        }
        lemma_path_chain_to_tiles(nodes0, grid@, wrapg, rc, cc, gp, gp, path@);
        if last_end_pos(grid@) is Some {
            let p = end_tile_pos.unwrap();
            assert forall|k: int|
                0 <= k < visited_out@.len() - 1 implies (#[trigger] visited_out@[k]).tile_id
                as int != tile_id_at(grid@, gp.0, gp.1) by {
                assert(visited_out@[k].tile_id == visited@[k]);
                let (r, c) = choose|r: int, c: int|
                    0 <= r < rc && 0 <= c < cc && (r, c) != gp && (#[trigger] node_at(
                        nodes0,
                        r,
                        c,
                    )).tile_id == #[trigger] visited@[k] && !node_at(nodes0, r, c).is_wall;
                lemma_reflect_at(nodes0, grid@, rc, cc, r, c);
                lemma_reflect_at(nodes0, grid@, rc, cc, gp.0, gp.1);
                lemma_distinct_cells_distinct_ids(nodes0, grid@, rc, cc, (r, c), gp);
            }
        }
    }
    (visited_out, path)
}

/// The search proper, over a freshly built node array.  Expanded cell
/// identities are appended to `visited`; the returned path carries only
/// identities of non-wall cells of the array the search started from.
#[verifier::rlimit(100)]
#[verifier::loop_isolation(false)]
fn bfs(
    grid: Vec<Vec<Node>>,
    current_tile_pos: (usize, usize),
    end_tile_pos: Option<(usize, usize)>,
    visited: &mut Vec<usize>,
    algo: &AlgorithmInUse,
    rng: &mut rand::rngs::StdRng,
    row_count: usize,
    col_count: usize,
) -> (path: Vec<PathfindingNode>)
    requires
        dims_ok(row_count as int, col_count as int),
        grid_dims(grid@, row_count as int, col_count as int),
        nodes_fresh(grid@, row_count as int, col_count as int),
        algo.direction_offset < 8,
        current_tile_pos.0 < row_count,
        current_tile_pos.1 < col_count,
        match end_tile_pos {
            Some(p) => p.0 < row_count && p.1 < col_count && !node_at(
                grid@,
                p.0 as int,
                p.1 as int,
            ).is_wall,
            None => true,
        },
    ensures
        final(visited)@.len() >= old(visited)@.len(),
        final(visited)@.subrange(0, old(visited)@.len() as int) == old(visited)@,
        forall|k: int|
            old(visited)@.len() <= k < final(visited)@.len() ==> open_cell_id(
                grid@,
                row_count as int,
                col_count as int,
                #[trigger] final(visited)@[k] as int,
            ),
        out_ok(grid@, row_count as int, col_count as int, path@),
        match end_tile_pos {
            Some(p) => path@.len() >= 1 && path@[0].tile_id == node_at(
                grid@,
                p.0 as int,
                p.1 as int,
            ).tile_id,
            None => path@.len() == 0,
        },
        ({
            let sn = node_at(grid@, current_tile_pos.0 as int, current_tile_pos.1 as int);
            let vnew = final(visited)@;
            let vold = old(visited)@;
            &&& (!sn.is_wall ==> vnew.len() > vold.len() && vnew[vold.len() as int] == sn.tile_id)
            &&& (sn.is_wall ==> vnew == vold)
        }),
        end_tile_pos is Some ==> ({
            let ep = ((end_tile_pos.unwrap().0 as int, end_tile_pos.unwrap().1 as int));
            forall|k: int|
                old(visited)@.len() <= k < final(visited)@.len() - 1 ==> exists|r: int, c: int|
                    0 <= r < row_count && 0 <= c < col_count && (r, c) != ep && (
                    #[trigger] node_at(grid@, r, c)).tile_id == #[trigger] final(visited)@[k]
                        && !node_at(grid@, r, c).is_wall
        }),
        node_path_chain(
            grid@,
            algo.world_wrap_enabled,
            row_count as int,
            col_count as int,
            match end_tile_pos {
                Some(p) => (p.0 as int, p.1 as int),
                None => (0int, 0int),
            },
            match end_tile_pos {
                Some(p) => (p.0 as int, p.1 as int),
                None => (0int, 0int),
            },
            path@,
        ),
{
    let ghost rc = row_count as int;
    let ghost cc = col_count as int;
    let ghost nodes0 = grid@;
    let ghost visited0 = visited@;
    let mut grid = grid;
    let mut path: Vec<PathfindingNode> = Vec::new();

    let mut queue: VecDeque<(usize, usize)> = VecDeque::new();
    let start_node = grid[current_tile_pos.0][current_tile_pos.1];
    let current_row = start_node.row;
    let current_col = start_node.col;
    proof {
        assert(node_at(grid@, current_tile_pos.0 as int, current_tile_pos.1 as int).row
            == current_tile_pos.0);
    }
    queue.push_front((current_row, current_col));

    let ghost epg: (int, int) = match end_tile_pos {
        Some(p) => (p.0 as int, p.1 as int),
        None => (0int, 0int),
    };
    let ghost start_wall = node_at(
        nodes0,
        current_tile_pos.0 as int,
        current_tile_pos.1 as int,
    ).is_wall;
    let ghost start_id = node_at(
        nodes0,
        current_tile_pos.0 as int,
        current_tile_pos.1 as int,
    ).tile_id;

    let mut directions = rotated_directions(algo.direction_offset);
    if algo.random_direction {
        shuffle_directions(rng, &mut directions);
    }
    proof {
        assert forall|k: int| 0 <= k < directions@.len() implies dir_ok(
            #[trigger] directions@[k],
        ) by {}
    }

    proof {
        assert((row_count as int) * (col_count as int) <= 0xFFFF * 0xFFFF) by (nonlinear_arith)
            requires
                0 <= row_count as int <= 0xFFFF,
                0 <= col_count as int <= 0xFFFF,
        ;
    }
    let n_cells: u64 = (row_count as u64) * (col_count as u64);
    proof {
        assert((n_cells + 1) * (n_cells + 1) < 0xFFFF_FFFF_FFFF_FFFF) by (nonlinear_arith)
            requires
                0 <= n_cells <= 0xFFFF * 0xFFFF,
        ;
    }
    let bound: u64 = (n_cells + 1) * (n_cells + 1);
    let mut steps: u64 = 0;

    let mut done: bool = false;
    while !done
        invariant
            grid_dims(grid@, rc, cc),
            same_statics(nodes0, grid@, rc, cc),
            walls_visited(grid@, rc, cc),
            prev_ok(grid@, rc, cc),
            forall|k: int|
                0 <= k < queue@.len() ==> (#[trigger] queue@[k]).0 < row_count && queue@[k].1
                    < col_count,
            visited@.len() >= visited0.len(),
            visited@.subrange(0, visited0.len() as int) == visited0,
            forall|k: int|
                visited0.len() <= k < visited@.len() ==> open_cell_id(
                    nodes0,
                    rc,
                    cc,
                    #[trigger] visited@[k] as int,
                ),
            steps <= bound,
            !done && visited@.len() == visited0.len() && !start_wall ==> steps == 0
                && queue@.len() == 1 && queue@[0] == (current_row, current_col),
            visited@.len() == visited0.len() ==> forall|r: int, c: int|
                0 <= r < rc && 0 <= c < cc ==> (#[trigger] node_at(grid@, r, c)).visited
                    == node_at(nodes0, r, c).visited,
            start_wall ==> visited@ == visited0 && (queue@.len() == 0 || (steps == 0
                && queue@.len() == 1 && queue@[0] == (current_row, current_col))),
            visited@.len() > visited0.len() ==> visited@[visited0.len() as int] == start_id,
            done && !start_wall ==> visited@.len() > visited0.len(),
            prev_adj(grid@, algo.world_wrap_enabled, rc, cc),
            end_tile_pos is Some ==> forall|k: int|
                visited0.len() <= k < visited@.len() && !(k == visited@.len() - 1 && done)
                    ==> exists|r: int, c: int|
                    0 <= r < rc && 0 <= c < cc && (r, c) != epg && (#[trigger] node_at(
                        nodes0,
                        r,
                        c,
                    )).tile_id == #[trigger] visited@[k] && !node_at(nodes0, r, c).is_wall,
        decreases bound - steps + (if done { 0int } else { 1int }),
    {
        if steps >= bound {
            proof {
                assert(bound >= 1) by (nonlinear_arith)
                    requires
                        bound == (n_cells + 1) * (n_cells + 1),
                        n_cells >= 0,
                ;
            }
            done = true;
        } else {
        steps = steps + 1;
        match queue.pop_back() {
            None => {
                done = true;
            },
            Some((row, col)) => {
        if grid[row][col].visited {
            // An already expanded cell, or a wall: nothing to do.
            proof {
                if visited@.len() == visited0.len() && !start_wall {
                    assert(node_at(grid@, row as int, col as int).visited == node_at(
                        nodes0,
                        row as int,
                        col as int,
                    ).visited);
                    assert(node_at(nodes0, row as int, col as int).visited == node_at(
                        nodes0,
                        row as int,
                        col as int,
                    ).is_wall);
                }
            }
        } else {
        let mut expanded = grid[row][col];
        proof {
            assert(expanded == node_at(grid@, row as int, col as int));
            assert(!node_at(grid@, row as int, col as int).is_wall);
            assert(node_at(nodes0, row as int, col as int).tile_id == expanded.tile_id);
            assert(!node_at(nodes0, row as int, col as int).is_wall);
        }
        expanded.visited = true;
        let ghost prev_nodes = grid@;
        grid[row][col] = expanded;
        proof {
            lemma_update_cell(prev_nodes, grid@, rc, cc, row as int, col as int, expanded);
            assert(open_cell_id(nodes0, rc, cc, expanded.tile_id as int));
            assert forall|r: int, c: int|
                0 <= r < rc && 0 <= c < cc implies match (#[trigger] node_at(
                grid@,
                r,
                c,
            )).previous_node {
                Some(pv) => adj_step(
                    algo.world_wrap_enabled,
                    (pv.0 as int, pv.1 as int),
                    (r, c),
                    rc,
                    cc,
                ),
                None => true,
            } by {
                if !(r == row && c == col) {
                    assert(node_at(grid@, r, c) == node_at(prev_nodes, r, c));
                } else {
                    assert(node_at(grid@, r, c).previous_node == node_at(
                        prev_nodes,
                        r,
                        c,
                    ).previous_node);
                }
            }
        }
        proof {
            if visited@.len() == visited0.len() && !start_wall {
                assert((row, col) == (current_row, current_col));
            }
        }
        visited.push(expanded.tile_id);
        proof {
            assert(visited@.subrange(0, visited0.len() as int) == visited0);
        }

        if let Some(end_pos) = end_tile_pos {
            if end_pos.0 == row && end_pos.1 == col {
                done = true;
            }
        }

        if !done {
        let mut d: usize = 0;
        while d < directions.len()
            invariant
                grid_dims(grid@, rc, cc),
                same_statics(nodes0, grid@, rc, cc),
                walls_visited(grid@, rc, cc),
                prev_ok(grid@, rc, cc),
                prev_adj(grid@, algo.world_wrap_enabled, rc, cc),
                forall|k: int|
                    0 <= k < queue@.len() ==> (#[trigger] queue@[k]).0 < row_count && queue@[k].1
                        < col_count,
                d <= directions@.len(),
                !node_at(grid@, row as int, col as int).is_wall,
            decreases directions@.len() - d,
        {
            let (dr, dc) = directions[d];
            let maybe = handle_world_wrap_for_coords(
                algo,
                (row, col),
                (dr, dc),
                row_count,
                col_count,
            );
            if let Some((visit_row, visit_col)) = maybe {
                if !grid[visit_row][visit_col].visited {
                    queue.push_front((visit_row, visit_col));
                    let mut upd = grid[visit_row][visit_col];
                    upd.previous_node = Some((row, col));
                    let ghost prev_nodes2 = grid@;
                    grid[visit_row][visit_col] = upd;
                    proof {
                        lemma_update_cell(
                            prev_nodes2,
                            grid@,
                            rc,
                            cc,
                            visit_row as int,
                            visit_col as int,
                            upd,
                        );
                        assert(adj_step(
                            algo.world_wrap_enabled,
                            (row as int, col as int),
                            (visit_row as int, visit_col as int),
                            rc,
                            cc,
                        )) by {
                            assert(crate::policy::king_delta(dr as int, dc as int));
                        }
                        assert forall|r: int, c: int|
                            0 <= r < rc && 0 <= c < cc implies match (#[trigger] node_at(
                            grid@,
                            r,
                            c,
                        )).previous_node {
                            Some(pv) => adj_step(
                                algo.world_wrap_enabled,
                                (pv.0 as int, pv.1 as int),
                                (r, c),
                                rc,
                                cc,
                            ),
                            None => true,
                        } by {
                            if !(r == visit_row && c == visit_col) {
                                assert(node_at(grid@, r, c) == node_at(prev_nodes2, r, c));
                            }
                        }
                    }
                }
            }
            d = d + 1;
        }
        }
        }
            },
        }
        }
    }

    // Path reconstruction: walk predecessor pointers back from the goal,
    // stopping at the start cell or where the chain ends.
    if let Some((end_row, end_col)) = end_tile_pos {
        let mut path_node = grid[end_row][end_col];
        let ghost mut ps: Seq<(usize, usize)> = Seq::empty();
        let ghost mut hp: (usize, usize) = (end_row, end_col);
        proof {
            assert(path_node == node_at(grid@, end_row as int, end_col as int));
            assert(node_at(grid@, end_row as int, end_col as int).is_wall == node_at(
                nodes0,
                end_row as int,
                end_col as int,
            ).is_wall);
            assert(!node_at(nodes0, end_row as int, end_col as int).is_wall);
        }
        let bound2: u64 = n_cells + 1;
        let mut steps2: u64 = 0;
        let ghost end_node_id = node_at(grid@, end_row as int, end_col as int).tile_id;
        let mut done2: bool = false;
        while !done2
            invariant
                steps2 <= bound2,
                out_ok(nodes0, rc, cc, path@),
                hp.0 < row_count && hp.1 < col_count,
                path_node == node_at(grid@, hp.0 as int, hp.1 as int),
                !node_at(grid@, hp.0 as int, hp.1 as int).is_wall,
                ps.len() == path@.len(),
                path@.len() == 0 ==> hp == (end_row, end_col) && steps2 == 0,
                done2 ==> path@.len() > 0,
                path@.len() > 0 ==> path@[0].tile_id == end_node_id,
                path@.len() > 0 ==> (ps[0].0 as int, ps[0].1 as int) == epg,
                forall|k: int|
                    0 <= k < ps.len() ==> ((#[trigger] ps[k]).0 < rc && ps[k].1 < cc && !node_at(
                        grid@,
                        ps[k].0 as int,
                        ps[k].1 as int,
                    ).is_wall && node_at(grid@, ps[k].0 as int, ps[k].1 as int).tile_id
                        == path@[k].tile_id),
                forall|k: int|
                    0 <= k < ps.len() - 1 ==> adj_step(
                        algo.world_wrap_enabled,
                        ((#[trigger] ps[k + 1]).0 as int, ps[k + 1].1 as int),
                        (ps[k].0 as int, ps[k].1 as int),
                        rc,
                        cc,
                    ),
                ps.len() > 0 && !done2 ==> adj_step(
                    algo.world_wrap_enabled,
                    (hp.0 as int, hp.1 as int),
                    (ps.last().0 as int, ps.last().1 as int),
                    rc,
                    cc,
                ),
            decreases bound2 - steps2 + (if done2 {
                0int
            } else {
                1int
            }),
        {
            if steps2 >= bound2 {
                done2 = true;
            } else {
            steps2 = steps2 + 1;
            proof {
                assert(node_at(nodes0, hp.0 as int, hp.1 as int).tile_id == path_node.tile_id);
                assert(open_cell_id(nodes0, rc, cc, path_node.tile_id as int));
            }
            path.push(PathfindingNode { tile_id: path_node.tile_id });
            proof {
                ps = ps.push(hp);
            }
            if path_node.row == current_row && path_node.col == current_col {
                done2 = true;
            } else {
            match path_node.previous_node {
                None => {
                    done2 = true;
                },
                Some((pr, pc)) => {
                    proof {
                        assert(node_at(grid@, hp.0 as int, hp.1 as int).previous_node == Some(
                            (pr, pc),
                        ));
                        assert(pr < row_count && pc < col_count);
                        assert(!node_at(grid@, pr as int, pc as int).is_wall);
                        assert(adj_step(
                            algo.world_wrap_enabled,
                            (pr as int, pc as int),
                            (hp.0 as int, hp.1 as int),
                            rc,
                            cc,
                        ));
                    }
                    path_node = grid[pr][pc];
                    proof {
                        hp = (pr, pc);
                        assert(path_node == node_at(grid@, pr as int, pc as int));
                    }
                },
            }
            }
            }
        }
        proof {
            assert(chain_positions_ok(
                grid@,
                algo.world_wrap_enabled,
                rc,
                cc,
                epg,
                epg,
                ps,
                path@,
            ));
            assert forall|k: int|
                0 <= k < ps.len() implies ((#[trigger] ps[k]).0 < rc && ps[k].1 < cc && !node_at(
                nodes0,
                ps[k].0 as int,
                ps[k].1 as int,
            ).is_wall && node_at(nodes0, ps[k].0 as int, ps[k].1 as int).tile_id
                == path@[k].tile_id) by {
                assert(node_at(grid@, ps[k].0 as int, ps[k].1 as int).is_wall == node_at(
                    nodes0,
                    ps[k].0 as int,
                    ps[k].1 as int,
                ).is_wall);
                assert(node_at(grid@, ps[k].0 as int, ps[k].1 as int).tile_id == node_at(
                    nodes0,
                    ps[k].0 as int,
                    ps[k].1 as int,
                ).tile_id);
            }
            assert(chain_positions_ok(
                nodes0,
                algo.world_wrap_enabled,
                rc,
                cc,
                epg,
                epg,
                ps,
                path@,
            ));
        }
    } else {
        proof {
            let ps: Seq<(usize, usize)> = Seq::empty();
            assert(chain_positions_ok(
                nodes0,
                algo.world_wrap_enabled,
                rc,
                cc,
                epg,
                epg,
                ps,
                path@,
            ));
        }
    }
    path
}

} // verus!
