//! Wilson's algorithm, bounded variant: when the walk runs into itself,
//! the loop is spliced out in place — the looping segment's cells are
//! reverted and their wall removals undone — instead of restarting the
//! whole walk.  The walk also emits its removals as it goes, and never
//! immediately reverses its last step.

use vstd::prelude::*;
use crate::policy::{dims_ok, in_bounds};
use crate::rng::rng_below;
use crate::terrain::{
    has_wall_removal, lemma_removal_extend, BuildType, TerrainAction, TerrainNode,
};
use crate::terrain_node::{
    build_maze_nodes, connector_ok, count_unvisited_rooms, is_room, m_events_known, m_known_id,
    m_lemma_count_strict, m_lemma_known_transfer, m_positions_ok, m_statics, maze_event_cell_ok,
    mgrid_dims, mnode_at, room_unvisited, tile_event_cell_ok, walk_contains, Node, NodeState,
};
use crate::tile::{known_tile_id, tiles_wf, Tile};
use crate::wilsons::{pick_random_unvisited, set_state, walk_direction};

verus! {

/// A random walk that splices out its own loops in place, emitting a
/// wall removal for every cell it claims and a wall re-addition for
/// every cell it reverts, until it touches the tree.
#[verifier::rlimit(100)]
#[verifier::loop_isolation(false)]
pub(crate) fn random_walk(
    start_row: usize,
    start_col: usize,
    grid: &mut Vec<Vec<Node>>,
    rng: &mut rand::rngs::StdRng,
    terrain_events: &mut Vec<TerrainNode>,
    row_count: usize,
    col_count: usize,
) -> (walk: Vec<(usize, usize)>)
    requires
        dims_ok(row_count as int, col_count as int),
        mgrid_dims(old(grid)@, row_count as int, col_count as int),
        m_positions_ok(old(grid)@, row_count as int, col_count as int),
        start_row < row_count,
        start_col < col_count,
        is_room(start_row as int, start_col as int),
        mnode_at(old(grid)@, start_row as int, start_col as int).state == NodeState::Unvisited,
        forall|r: int, c: int|
            0 <= r < row_count && 0 <= c < col_count ==> (#[trigger] mnode_at(
                old(grid)@,
                r,
                c,
            )).state != NodeState::Current,
    ensures
        mgrid_dims(final(grid)@, row_count as int, col_count as int),
        m_statics(old(grid)@, final(grid)@, row_count as int, col_count as int),
        m_positions_ok(final(grid)@, row_count as int, col_count as int),
        forall|r: int, c: int|
            0 <= r < row_count && 0 <= c < col_count && is_room(r, c) && (#[trigger] mnode_at(
                final(grid)@,
                r,
                c,
            )).state != mnode_at(old(grid)@, r, c).state ==> (mnode_at(old(grid)@, r, c).state
                == NodeState::Unvisited && mnode_at(final(grid)@, r, c).state == NodeState::Current
                && walk_contains(walk@, r, c)),
        forall|r: int, c: int|
            0 <= r < row_count && 0 <= c < col_count && (#[trigger] mnode_at(
                final(grid)@,
                r,
                c,
            )).state == NodeState::Current ==> walk_contains(walk@, r, c),
        forall|r: int, c: int|
            0 <= r < row_count && 0 <= c < col_count && (#[trigger] mnode_at(
                final(grid)@,
                r,
                c,
            )).state == NodeState::Path ==> mnode_at(old(grid)@, r, c).state == NodeState::Path,
        walk@.len() >= 1,
        forall|k: int|
            0 <= k < walk@.len() ==> (#[trigger] walk@[k]).0 < row_count && walk@[k].1 < col_count,
        is_room(walk@[0].0 as int, walk@[0].1 as int),
        mnode_at(old(grid)@, walk@[0].0 as int, walk@[0].1 as int).state == NodeState::Unvisited,
        forall|k: int|
            0 <= k < walk@.len() ==> (is_room((#[trigger] walk@[k]).0 as int, walk@[k].1 as int)
                || connector_ok(
                walk@[k].0 as int,
                walk@[k].1 as int,
                row_count as int,
                col_count as int,
            )),
        forall|j: int|
            old(terrain_events)@.len() <= j < final(terrain_events)@.len() ==> ((
            #[trigger] final(terrain_events)@[j]).build_type == BuildType::Wall
                && maze_event_cell_ok(
                old(grid)@,
                row_count as int,
                col_count as int,
                final(terrain_events)@[j],
            )),
        final(terrain_events)@.len() >= old(terrain_events)@.len(),
        final(terrain_events)@.subrange(0, old(terrain_events)@.len() as int) == old(
            terrain_events,
        )@,
        m_events_known(
            old(grid)@,
            row_count as int,
            col_count as int,
            final(terrain_events)@,
            old(terrain_events)@.len() as int,
        ),
{
    let ghost rc = row_count as int;
    let ghost cc = col_count as int;
    let ghost g0 = grid@;
    let ghost ev0 = terrain_events@;

    let mut current_row = start_row;
    let mut current_col = start_col;
    let mut path: Vec<(usize, usize)> = Vec::new();
    path.push((start_row, start_col));
    let start_id = grid[start_row][start_col].tile_id;
    set_state(grid, start_row, start_col, NodeState::Current, Ghost(rc), Ghost(cc));
    proof {
        assert(mnode_at(g0, start_row as int, start_col as int).tile_id == start_id);
        assert(m_known_id(g0, rc, cc, start_id as int));
    }
    terrain_events.push(
        TerrainNode { tile_id: start_id, action: TerrainAction::Removed, build_type: BuildType::Wall },
    );
    proof {
        assert(terrain_events@.subrange(0, ev0.len() as int) == ev0);
        assert(path@[0] == (start_row, start_col));
    }

    let mut last_direction: (isize, isize) = (0, 0);

    proof {
        assert((row_count as int) * (col_count as int) <= 0xFFFF * 0xFFFF) by (nonlinear_arith)
            requires
                0 <= row_count as int <= 0xFFFF,
                0 <= col_count as int <= 0xFFFF,
        ;
    }
    let n_cells: u64 = (row_count as u64) * (col_count as u64);
    proof {
        assert((n_cells + 1) * (n_cells + 1) + 0x100000 < 0xFFFF_FFFF_FFFF_FFFF)
            by (nonlinear_arith)
            requires
                0 <= n_cells <= 0xFFFF * 0xFFFF,
        ;
    }
    let fuel: u64 = (n_cells + 1) * (n_cells + 1) + 0x100000;
    let mut steps: u64 = 0;

    loop
        invariant
            mgrid_dims(grid@, rc, cc),
            m_statics(g0, grid@, rc, cc),
            m_positions_ok(grid@, rc, cc),
            current_row < row_count,
            current_col < col_count,
            is_room(current_row as int, current_col as int),
            mnode_at(g0, current_row as int, current_col as int).state == NodeState::Unvisited,
            path@.len() >= 1,
            forall|k: int|
                0 <= k < path@.len() ==> (#[trigger] path@[k]).0 < row_count && path@[k].1
                    < col_count,
            is_room(path@[0].0 as int, path@[0].1 as int),
            mnode_at(g0, path@[0].0 as int, path@[0].1 as int).state == NodeState::Unvisited,
            forall|k: int|
                0 <= k < path@.len() ==> (is_room(
                    (#[trigger] path@[k]).0 as int,
                    path@[k].1 as int,
                ) || connector_ok(path@[k].0 as int, path@[k].1 as int, rc, cc)),
            forall|j: int|
                ev0.len() <= j < terrain_events@.len() ==> ((
                #[trigger] terrain_events@[j]).build_type == BuildType::Wall
                    && maze_event_cell_ok(g0, rc, cc, terrain_events@[j])),
            forall|k: int|
                0 <= k < path@.len() ==> mnode_at(
                    grid@,
                    (#[trigger] path@[k]).0 as int,
                    path@[k].1 as int,
                ).state != NodeState::Path,
            forall|r: int, c: int|
                0 <= r < rc && 0 <= c < cc && is_room(r, c) && (#[trigger] mnode_at(
                    grid@,
                    r,
                    c,
                )).state != mnode_at(g0, r, c).state ==> (mnode_at(g0, r, c).state
                    == NodeState::Unvisited && mnode_at(grid@, r, c).state == NodeState::Current
                    && walk_contains(path@, r, c)),
            forall|r: int, c: int|
                0 <= r < rc && 0 <= c < cc && (#[trigger] mnode_at(grid@, r, c)).state
                    == NodeState::Current ==> walk_contains(path@, r, c),
            forall|r: int, c: int|
                0 <= r < rc && 0 <= c < cc && (#[trigger] mnode_at(grid@, r, c)).state
                    == NodeState::Path ==> mnode_at(g0, r, c).state == NodeState::Path,
            terrain_events@.len() >= ev0.len(),
            terrain_events@.subrange(0, ev0.len() as int) == ev0,
            m_events_known(g0, rc, cc, terrain_events@, ev0.len() as int),
            steps <= fuel,
        decreases fuel - steps,
    {
        if steps >= fuel {
            break ;
        }
        steps = steps + 1;

        let dir_i = rng_below(rng, 4);
        let (dr, dc) = walk_direction(dir_i);
        if dr == last_direction.0 && dc == last_direction.1 {
            continue ;
        }

        let new_row_i = current_row as isize + dr;
        let new_col_i = current_col as isize + dc;
        if in_bounds(new_row_i, new_col_i, row_count, col_count) {
            last_direction = (-dr, -dc);
            let u_new_row = new_row_i as usize;
            let u_new_col = new_col_i as usize;
            proof {
                assert(is_room(u_new_row as int, u_new_col as int));
            }

            // Flip the wall cell just crossed.
            let mid_row = (new_row_i - dr / 2) as usize;
            let mid_col = (new_col_i - dc / 2) as usize;
            let mid_id = grid[mid_row][mid_col].tile_id;
            let ghost g_pre0 = grid@;
            let ghost p_pre0 = path@;
            set_state(grid, mid_row, mid_col, NodeState::Current, Ghost(rc), Ghost(cc));
            path.push((mid_row, mid_col));
            proof {
                assert(path@[path@.len() - 1] == (mid_row, mid_col));
                assert(!is_room(mid_row as int, mid_col as int));
                assert(connector_ok(mid_row as int, mid_col as int, rc, cc));
                assert(walk_contains(path@, mid_row as int, mid_col as int));
                crate::wilsons::lemma_walk_step(
                    g0,
                    g_pre0,
                    grid@,
                    p_pre0,
                    path@,
                    rc,
                    cc,
                    mid_row as int,
                    mid_col as int,
                );
                assert(mnode_at(g0, mid_row as int, mid_col as int).tile_id == mid_id);
                assert(m_known_id(g0, rc, cc, mid_id as int));
            }
            terrain_events.push(
                TerrainNode {
                    tile_id: mid_id,
                    action: TerrainAction::Removed,
                    build_type: BuildType::Wall,
                },
            );
            proof {
                assert(terrain_events@.subrange(0, ev0.len() as int) == ev0);
            }

            if grid[u_new_row][u_new_col].state == NodeState::Unvisited {
                let new_id = grid[u_new_row][u_new_col].tile_id;
                let ghost g_pre1 = grid@;
                let ghost p_pre1 = path@;
                proof {
                    assert(mnode_at(grid@, u_new_row as int, u_new_col as int).state
                        == NodeState::Unvisited);
                    assert(mnode_at(g0, u_new_row as int, u_new_col as int).state
                        == NodeState::Unvisited);
                }
                set_state(grid, u_new_row, u_new_col, NodeState::Current, Ghost(rc), Ghost(cc));
                proof {
                    assert(mnode_at(g0, u_new_row as int, u_new_col as int).tile_id == new_id);
                    assert(m_known_id(g0, rc, cc, new_id as int));
                }
                terrain_events.push(
                    TerrainNode {
                        tile_id: new_id,
                        action: TerrainAction::Removed,
                        build_type: BuildType::Wall,
                    },
                );
                path.push((u_new_row, u_new_col));
                proof {
                    assert(terrain_events@.subrange(0, ev0.len() as int) == ev0);
                    assert(path@[path@.len() - 1] == (u_new_row, u_new_col));
                    assert(walk_contains(path@, u_new_row as int, u_new_col as int));
                    crate::wilsons::lemma_walk_step(
                        g0,
                        g_pre1,
                        grid@,
                        p_pre1,
                        path@,
                        rc,
                        cc,
                        u_new_row as int,
                        u_new_col as int,
                    );
                }
                current_row = u_new_row;
                current_col = u_new_col;
            } else if grid[u_new_row][u_new_col].state == NodeState::Current {
                // Splice the loop out in place: revert everything past
                // the intersection point and continue from there.
                proof {
                    assert(mnode_at(grid@, u_new_row as int, u_new_col as int).state
                        == NodeState::Current);
                    assert(mnode_at(g0, u_new_row as int, u_new_col as int).state
                        == NodeState::Unvisited);
                }
                let mut split_vec_idx: Option<usize> = None;
                let mut index: usize = 0;
                while index < path.len()
                    invariant
                        mgrid_dims(grid@, rc, cc),
                        m_statics(g0, grid@, rc, cc),
                        m_positions_ok(grid@, rc, cc),
                        index <= path@.len(),
                        match split_vec_idx {
                            Some(s) => s < index && path@[s as int] == (u_new_row, u_new_col) && (
                            forall|j: int|
                                s < j < index ==> mnode_at(
                                    grid@,
                                    (#[trigger] path@[j]).0 as int,
                                    path@[j].1 as int,
                                ).state == NodeState::Unvisited) && (forall|j: int|
                                0 <= j < index && (#[trigger] path@[j]) == (u_new_row, u_new_col)
                                    ==> j <= s),
                            None => forall|j: int|
                                0 <= j < index ==> (#[trigger] path@[j]) != (u_new_row, u_new_col),
                        },
                        forall|k: int|
                            0 <= k < path@.len() ==> mnode_at(
                                grid@,
                                (#[trigger] path@[k]).0 as int,
                                path@[k].1 as int,
                            ).state != NodeState::Path,
                        forall|r: int, c: int|
                            0 <= r < rc && 0 <= c < cc && is_room(r, c) && (#[trigger] mnode_at(
                                grid@,
                                r,
                                c,
                            )).state != mnode_at(g0, r, c).state ==> (mnode_at(g0, r, c).state
                                == NodeState::Unvisited && mnode_at(grid@, r, c).state
                                == NodeState::Current && walk_contains(path@, r, c)),
                        forall|r: int, c: int|
                            0 <= r < rc && 0 <= c < cc && (#[trigger] mnode_at(grid@, r, c)).state
                                == NodeState::Current ==> walk_contains(path@, r, c),
                        forall|r: int, c: int|
                            0 <= r < rc && 0 <= c < cc && (#[trigger] mnode_at(grid@, r, c)).state
                                == NodeState::Path ==> mnode_at(g0, r, c).state == NodeState::Path,
                        terrain_events@.len() >= ev0.len(),
                        terrain_events@.subrange(0, ev0.len() as int) == ev0,
                        m_events_known(g0, rc, cc, terrain_events@, ev0.len() as int),
                        forall|j: int|
                            ev0.len() <= j < terrain_events@.len() ==> ((
                            #[trigger] terrain_events@[j]).build_type == BuildType::Wall
                                && maze_event_cell_ok(g0, rc, cc, terrain_events@[j])),
                        mnode_at(grid@, u_new_row as int, u_new_col as int).state
                            == NodeState::Current,
                    decreases path@.len() - index,
                {
                    let (row, col) = path[index];
                    if u_new_row == row && u_new_col == col {
                        split_vec_idx = Some(index);
                        index = index + 1;
                        continue ;
                    }
                    if split_vec_idx.is_none() {
                        index = index + 1;
                        continue ;
                    }
                    let rid = grid[row][col].tile_id;
                    let ghost g_prev = grid@;
                    set_state(grid, row, col, NodeState::Unvisited, Ghost(rc), Ghost(cc));
                    proof {
                        assert(mnode_at(g0, row as int, col as int).tile_id == rid);
                        assert(m_known_id(g0, rc, cc, rid as int));
                        assert forall|r: int, c: int|
                            0 <= r < rc && 0 <= c < cc && is_room(r, c) && (#[trigger] mnode_at(
                                grid@,
                                r,
                                c,
                            )).state != mnode_at(g0, r, c).state implies (mnode_at(
                            g0,
                            r,
                            c,
                        ).state == NodeState::Unvisited && mnode_at(grid@, r, c).state
                            == NodeState::Current && walk_contains(path@, r, c)) by {
                            if !(r == row && c == col) {
                                assert(mnode_at(grid@, r, c) == mnode_at(g_prev, r, c));
                            }
                        }
                        assert forall|r: int, c: int|
                            0 <= r < rc && 0 <= c < cc && (#[trigger] mnode_at(grid@, r, c)).state
                                == NodeState::Current implies walk_contains(path@, r, c) by {
                            if !(r == row && c == col) {
                                assert(mnode_at(grid@, r, c) == mnode_at(g_prev, r, c));
                            }
                        }
                    }
                    terrain_events.push(
                        TerrainNode {
                            tile_id: rid,
                            action: TerrainAction::Added,
                            build_type: BuildType::Wall,
                        },
                    );
                    proof {
                        assert(terrain_events@.subrange(0, ev0.len() as int) == ev0);
                    }
                    index = index + 1;
                }
                let si = match split_vec_idx {
                    Some(s) => s,
                    None => {
                        proof {
                            let j = choose|j: int|
                                0 <= j < path@.len() && (#[trigger] path@[j]).0 == u_new_row
                                    && path@[j].1 == u_new_col;
                            assert(path@[j] == (u_new_row, u_new_col));
                        }
                        0
                    },
                };
                let ghost p_old = path@;
                path.truncate(si + 1);
                proof {
                    assert(path@ == p_old.subrange(0, si + 1));
                    assert(path@[0] == p_old[0]);
                    assert forall|r: int, c: int|
                        0 <= r < rc && 0 <= c < cc && (#[trigger] mnode_at(grid@, r, c)).state
                            == NodeState::Current implies walk_contains(path@, r, c) by {
                        let j = choose|j: int|
                            0 <= j < p_old.len() && (#[trigger] p_old[j]).0 == r && p_old[j].1 == c;
                        if j <= si {
                            assert(path@[j] == p_old[j]);
                        } else {
                            assert(mnode_at(
                                grid@,
                                p_old[j].0 as int,
                                p_old[j].1 as int,
                            ).state == NodeState::Unvisited);
                        }
                    }
                    assert forall|r: int, c: int|
                        0 <= r < rc && 0 <= c < cc && is_room(r, c) && (#[trigger] mnode_at(
                            grid@,
                            r,
                            c,
                        )).state != mnode_at(g0, r, c).state implies (mnode_at(g0, r, c).state
                        == NodeState::Unvisited && mnode_at(grid@, r, c).state
                        == NodeState::Current && walk_contains(path@, r, c)) by {
                        assert(mnode_at(grid@, r, c).state == NodeState::Current);
                    }
                }
                let anchor = path[si];
                current_row = anchor.0;
                current_col = anchor.1;
                proof {
                    assert(path@[si as int] == (u_new_row, u_new_col));
                    assert(mnode_at(g0, current_row as int, current_col as int).state
                        == NodeState::Unvisited);
                }
                last_direction = (
                    new_row_i - current_row as isize,
                    new_col_i - current_col as isize,
                );
            } else {
                proof {
                    assert(mnode_at(grid@, u_new_row as int, u_new_col as int).state
                        == NodeState::Path);
                }
                return path;
            }
        }
    }
    path
}

/// Carves a uniform spanning tree of the room lattice into the event
/// stream, splicing walk loops in place: after it returns, every room
/// cell of the grid has a wall-removal event.
pub fn wilsons_bounded(
    grid: Vec<Vec<Node>>,
    terrain_events: &mut Vec<TerrainNode>,
    rng: &mut rand::rngs::StdRng,
    row_count: usize,
    col_count: usize,
)
    requires
        dims_ok(row_count as int, col_count as int),
        row_count >= 2,
        col_count >= 2,
        mgrid_dims(grid@, row_count as int, col_count as int),
        m_positions_ok(grid@, row_count as int, col_count as int),
        forall|r: int, c: int|
            0 <= r < row_count && 0 <= c < col_count ==> (#[trigger] mnode_at(grid@, r, c)).state
                == NodeState::Unvisited,
    ensures
        final(terrain_events)@.len() >= old(terrain_events)@.len(),
        final(terrain_events)@.subrange(0, old(terrain_events)@.len() as int) == old(
            terrain_events,
        )@,
        m_events_known(
            grid@,
            row_count as int,
            col_count as int,
            final(terrain_events)@,
            old(terrain_events)@.len() as int,
        ),
        forall|r: int, c: int|
            0 <= r < row_count && 0 <= c < col_count && is_room(r, c) ==> has_wall_removal(
                final(terrain_events)@,
                (#[trigger] mnode_at(grid@, r, c)).tile_id as int,
            ),
        forall|j: int|
            old(terrain_events)@.len() <= j < final(terrain_events)@.len() ==> ((
            #[trigger] final(terrain_events)@[j]).build_type == BuildType::Wall
                && maze_event_cell_ok(
                grid@,
                row_count as int,
                col_count as int,
                final(terrain_events)@[j],
            )),
{
    let ghost rc = row_count as int;
    let ghost cc = col_count as int;
    let ghost g0 = grid@;
    let ghost ev0 = terrain_events@;
    let mut grid = grid;

    let seed_row = rng_below(rng, row_count / 2) * 2;
    let seed_col = rng_below(rng, col_count / 2) * 2;
    let seed_id = grid[seed_row][seed_col].tile_id;
    set_state(&mut grid, seed_row, seed_col, NodeState::Path, Ghost(rc), Ghost(cc));
    proof {
        assert(m_known_id(g0, rc, cc, seed_id as int));
    }
    terrain_events.push(
        TerrainNode { tile_id: seed_id, action: TerrainAction::Removed, build_type: BuildType::Wall },
    );
    proof {
        assert(terrain_events@.subrange(0, ev0.len() as int) == ev0);
        assert(terrain_events@[terrain_events@.len() - 1] == (TerrainNode {
            tile_id: seed_id,
            action: TerrainAction::Removed,
            build_type: BuildType::Wall,
        }));
        assert forall|r: int, c: int|
            0 <= r < rc && 0 <= c < cc && (#[trigger] mnode_at(grid@, r, c)).state
                == NodeState::Path implies has_wall_removal(
            terrain_events@,
            mnode_at(grid@, r, c).tile_id as int,
        ) by {
            if r == seed_row && c == seed_col {
                assert(mnode_at(grid@, r, c).tile_id == seed_id);
            } else {
                assert(mnode_at(grid@, r, c) == mnode_at(g0, r, c));
            }
        }
    }

    loop
        invariant
            rc == row_count as int,
            cc == col_count as int,
            dims_ok(rc, cc),
            mgrid_dims(grid@, rc, cc),
            m_statics(g0, grid@, rc, cc),
            m_positions_ok(grid@, rc, cc),
            forall|r: int, c: int|
                0 <= r < rc && 0 <= c < cc ==> (#[trigger] mnode_at(grid@, r, c)).state
                    != NodeState::Current,
            forall|r: int, c: int|
                0 <= r < rc && 0 <= c < cc && (#[trigger] mnode_at(grid@, r, c)).state
                    == NodeState::Path ==> has_wall_removal(
                    terrain_events@,
                    mnode_at(grid@, r, c).tile_id as int,
                ),
            terrain_events@.len() >= ev0.len(),
            terrain_events@.subrange(0, ev0.len() as int) == ev0,
            m_events_known(g0, rc, cc, terrain_events@, ev0.len() as int),
            forall|j: int|
                ev0.len() <= j < terrain_events@.len() ==> ((
                #[trigger] terrain_events@[j]).build_type == BuildType::Wall
                    && maze_event_cell_ok(g0, rc, cc, terrain_events@[j])),
        ensures
            mgrid_dims(grid@, rc, cc),
            m_statics(g0, grid@, rc, cc),
            forall|r: int, c: int|
                0 <= r < rc && 0 <= c < cc && is_room(r, c) ==> (#[trigger] mnode_at(
                    grid@,
                    r,
                    c,
                )).state == NodeState::Path,
            forall|r: int, c: int|
                0 <= r < rc && 0 <= c < cc && (#[trigger] mnode_at(grid@, r, c)).state
                    == NodeState::Path ==> has_wall_removal(
                    terrain_events@,
                    mnode_at(grid@, r, c).tile_id as int,
                ),
            terrain_events@.len() >= ev0.len(),
            terrain_events@.subrange(0, ev0.len() as int) == ev0,
            m_events_known(g0, rc, cc, terrain_events@, ev0.len() as int),
            forall|j: int|
                ev0.len() <= j < terrain_events@.len() ==> ((
                #[trigger] terrain_events@[j]).build_type == BuildType::Wall
                    && maze_event_cell_ok(g0, rc, cc, terrain_events@[j])),
        decreases count_unvisited_rooms(grid@),
    {
        let picked = match pick_random_unvisited(&grid, rng, row_count, col_count) {
            Some(p) => p,
            None => { break ; },
        };
        let (row, col) = picked;
        let ghost g_top = grid@;
        let ghost ev_top = terrain_events@;
        let path = random_walk(row, col, &mut grid, rng, terrain_events, row_count, col_count);
        proof {
            assert(m_statics(g0, grid@, rc, cc));
            assert(terrain_events@.subrange(0, ev0.len() as int) == ev_top.subrange(
                0,
                ev0.len() as int,
            ));
            assert forall|j: int| ev0.len() <= j < terrain_events@.len() implies m_known_id(
                g0,
                rc,
                cc,
                (#[trigger] terrain_events@[j]).tile_id as int,
            ) by {
                if j < ev_top.len() {
                    assert(terrain_events@[j] == terrain_events@.subrange(
                        0,
                        ev_top.len() as int,
                    )[j]);
                    assert(terrain_events@.subrange(0, ev_top.len() as int) == ev_top);
                } else {
                    m_lemma_known_transfer(
                        g0,
                        g_top,
                        rc,
                        cc,
                        terrain_events@[j].tile_id as int,
                    );
                }
            }
            assert forall|r: int, c: int|
                0 <= r < rc && 0 <= c < cc && (#[trigger] mnode_at(grid@, r, c)).state
                    == NodeState::Path implies has_wall_removal(
                terrain_events@,
                mnode_at(grid@, r, c).tile_id as int,
            ) by {
                assert(mnode_at(g_top, r, c).state == NodeState::Path);
                assert(mnode_at(grid@, r, c).tile_id == mnode_at(g_top, r, c).tile_id);
                lemma_removal_extend(
                    ev_top,
                    terrain_events@,
                    mnode_at(grid@, r, c).tile_id as int,
                );
            }
            assert forall|j: int|
                ev0.len() <= j < terrain_events@.len() implies ((
                #[trigger] terrain_events@[j]).build_type == BuildType::Wall
                    && maze_event_cell_ok(g0, rc, cc, terrain_events@[j])) by {
                if j < ev_top.len() {
                    assert(terrain_events@[j] == terrain_events@.subrange(
                        0,
                        ev_top.len() as int,
                    )[j]);
                    assert(terrain_events@.subrange(0, ev_top.len() as int) == ev_top);
                } else {
                    assert(maze_event_cell_ok(g_top, rc, cc, terrain_events@[j]));
                    let (r, c) = choose|r: int, c: int|
                        0 <= r < rc && 0 <= c < cc && (#[trigger] mnode_at(g_top, r, c)).tile_id
                            == terrain_events@[j].tile_id && (is_room(r, c) || connector_ok(
                            r,
                            c,
                            rc,
                            cc,
                        ));
                    assert(mnode_at(g0, r, c).tile_id == mnode_at(g_top, r, c).tile_id);
                }
            }
            assert forall|r: int, c: int|
                0 <= r < rc && 0 <= c < cc && room_unvisited(#[trigger] mnode_at(grid@, r, c))
                implies room_unvisited(mnode_at(g_top, r, c)) by {
                if mnode_at(grid@, r, c).state != mnode_at(g_top, r, c).state {
                    assert(is_room(r, c));
                }
            }
        }

        let mut k: usize = 0;
        while k < path.len()
            invariant
                rc == row_count as int,
                cc == col_count as int,
                dims_ok(rc, cc),
                mgrid_dims(grid@, rc, cc),
                m_statics(g0, grid@, rc, cc),
                m_positions_ok(grid@, rc, cc),
                k <= path@.len(),
                forall|j: int|
                    0 <= j < path@.len() ==> (#[trigger] path@[j]).0 < row_count && path@[j].1
                        < col_count,
                forall|j: int|
                    0 <= j < k ==> mnode_at(
                        grid@,
                        (#[trigger] path@[j]).0 as int,
                        path@[j].1 as int,
                    ).state == NodeState::Path,
                forall|r: int, c: int|
                    0 <= r < rc && 0 <= c < cc && (#[trigger] mnode_at(grid@, r, c)).state
                        == NodeState::Current ==> walk_contains(path@, r, c),
                forall|r: int, c: int|
                    0 <= r < rc && 0 <= c < cc && (#[trigger] mnode_at(grid@, r, c)).state
                        == NodeState::Path ==> has_wall_removal(
                        terrain_events@,
                        mnode_at(grid@, r, c).tile_id as int,
                    ),
                forall|r: int, c: int|
                    0 <= r < rc && 0 <= c < cc && room_unvisited(#[trigger] mnode_at(grid@, r, c))
                        ==> room_unvisited(mnode_at(g_top, r, c)),
                terrain_events@.len() >= ev0.len(),
                terrain_events@.subrange(0, ev0.len() as int) == ev0,
                m_events_known(g0, rc, cc, terrain_events@, ev0.len() as int),
                forall|j: int|
                    0 <= j < path@.len() ==> (is_room(
                        (#[trigger] path@[j]).0 as int,
                        path@[j].1 as int,
                    ) || connector_ok(path@[j].0 as int, path@[j].1 as int, rc, cc)),
                forall|j: int|
                    ev0.len() <= j < terrain_events@.len() ==> ((
                    #[trigger] terrain_events@[j]).build_type == BuildType::Wall
                        && maze_event_cell_ok(g0, rc, cc, terrain_events@[j])),
            decreases path@.len() - k,
        {
            let (pr, pc) = path[k];
            let id = grid[pr][pc].tile_id;
            proof {
                assert(mnode_at(grid@, pr as int, pc as int).tile_id == id);
                assert(mnode_at(g0, pr as int, pc as int).tile_id == id);
                assert(m_known_id(g0, rc, cc, id as int));
            }
            let ghost g_pre = grid@;
            let ghost ev_pre = terrain_events@;
            set_state(&mut grid, pr, pc, NodeState::Path, Ghost(rc), Ghost(cc));
            terrain_events.push(
                TerrainNode { tile_id: id, action: TerrainAction::Removed, build_type: BuildType::Wall },
            );
            proof {
                assert(terrain_events@.subrange(0, ev0.len() as int) == ev0);
                assert(terrain_events@[terrain_events@.len() - 1] == (TerrainNode {
                    tile_id: id,
                    action: TerrainAction::Removed,
                    build_type: BuildType::Wall,
                }));
                assert(has_wall_removal(terrain_events@, id as int));
                assert forall|r: int, c: int|
                    0 <= r < rc && 0 <= c < cc && (#[trigger] mnode_at(grid@, r, c)).state
                        == NodeState::Path implies has_wall_removal(
                    terrain_events@,
                    mnode_at(grid@, r, c).tile_id as int,
                ) by {
                    if r == pr && c == pc {
                    } else {
                        assert(mnode_at(grid@, r, c) == mnode_at(g_pre, r, c));
                        lemma_removal_extend(
                            ev_pre,
                            terrain_events@,
                            mnode_at(grid@, r, c).tile_id as int,
                        );
                    }
                }
                assert forall|r: int, c: int|
                    0 <= r < rc && 0 <= c < cc && (#[trigger] mnode_at(grid@, r, c)).state
                        == NodeState::Current implies walk_contains(path@, r, c) by {
                    assert(mnode_at(grid@, r, c) == mnode_at(g_pre, r, c));
                }
                assert(maze_event_cell_ok(
                    g0,
                    rc,
                    cc,
                    terrain_events@[terrain_events@.len() - 1],
                )) by {
                    assert(mnode_at(g0, pr as int, pc as int).tile_id == id);
                    assert(is_room(pr as int, pc as int) || connector_ok(
                        pr as int,
                        pc as int,
                        rc,
                        cc,
                    ));
                }
            }
            k = k + 1;
        }

        proof {
            assert forall|r: int, c: int|
                0 <= r < rc && 0 <= c < cc implies (#[trigger] mnode_at(grid@, r, c)).state
                != NodeState::Current by {
                if mnode_at(grid@, r, c).state == NodeState::Current {
                    let j = choose|j: int|
                        0 <= j < path@.len() && (#[trigger] path@[j]).0 == r && path@[j].1 == c;
                    assert(mnode_at(grid@, r, c).state == NodeState::Path);
                }
            }
            let hr = path@[0].0 as int;
            let hc = path@[0].1 as int;
            assert(mnode_at(grid@, hr, hc).state == NodeState::Path);
            assert(is_room(hr, hc) && mnode_at(g_top, hr, hc).row == hr && mnode_at(
                g_top,
                hr,
                hc,
            ).col == hc);
            assert(room_unvisited(mnode_at(g_top, hr, hc)));
            assert forall|r: int, i: int|
                0 <= r < g_top.len() && 0 <= i < g_top[r]@.len() implies (room_unvisited(
                #[trigger] grid@[r]@[i],
            ) ==> room_unvisited(g_top[r]@[i])) by {
                assert(mnode_at(grid@, r, i) == grid@[r]@[i]);
                assert(mnode_at(g_top, r, i) == g_top[r]@[i]);
            }
            assert(!room_unvisited(grid@[hr]@[hc]));
            assert(room_unvisited(g_top[hr]@[hc]));
            m_lemma_count_strict(g_top, grid@, hr, hc);
        }
    }
    proof {
        assert forall|r: int, c: int|
            0 <= r < rc && 0 <= c < cc && is_room(r, c) implies has_wall_removal(
            terrain_events@,
            mnode_at(g0, r, c).tile_id as int,
        ) by {
            assert(mnode_at(grid@, r, c).state == NodeState::Path);
            assert(mnode_at(grid@, r, c).tile_id == mnode_at(g0, r, c).tile_id);
        }
    }
}

/// Emits a wall for every tile, then carves a maze with the bounded
/// variant of Wilson's algorithm: the returned stream opens with one
/// `Added` wall per tile, in snapshot order, and later removes the wall
/// of every room cell.
pub fn setup_and_run_wilsons_bounded(
    grid: &Vec<Tile>,
    rng: &mut rand::rngs::StdRng,
    row_count: usize,
    col_count: usize,
) -> (terrain_events: Vec<TerrainNode>)
    requires
        dims_ok(row_count as int, col_count as int),
        row_count >= 2,
        col_count >= 2,
        tiles_wf(grid@, row_count as int, col_count as int),
    ensures
        terrain_events@.len() >= grid@.len(),
        forall|i: int|
            0 <= i < grid@.len() ==> #[trigger] terrain_events@[i] == (TerrainNode {
                tile_id: grid@[i].id,
                action: TerrainAction::Added,
                build_type: BuildType::Wall,
            }),
        forall|j: int|
            0 <= j < terrain_events@.len() ==> known_tile_id(
                grid@,
                (#[trigger] terrain_events@[j]).tile_id as int,
            ),
        forall|i: int|
            0 <= i < grid@.len() && is_room(
                (#[trigger] grid@[i]).row as int,
                grid@[i].col as int,
            ) ==> has_wall_removal(terrain_events@, grid@[i].id as int),
        forall|j: int|
            grid@.len() <= j < terrain_events@.len() ==> ((
            #[trigger] terrain_events@[j]).build_type == BuildType::Wall && tile_event_cell_ok(
                grid@,
                row_count as int,
                col_count as int,
                terrain_events@[j],
            )),
{
    let ghost rc = row_count as int;
    let ghost cc = col_count as int;
    let mut terrain_events: Vec<TerrainNode> = Vec::new();
    let mut i: usize = 0;
    while i < grid.len()
        invariant
            i <= grid@.len(),
            terrain_events@.len() == i,
            forall|j: int|
                0 <= j < i ==> #[trigger] terrain_events@[j] == (TerrainNode {
                    tile_id: grid@[j].id,
                    action: TerrainAction::Added,
                    build_type: BuildType::Wall,
                }),
        decreases grid@.len() - i,
    {
        let t = grid[i];
        terrain_events.push(
            TerrainNode { tile_id: t.id, action: TerrainAction::Added, build_type: BuildType::Wall },
        );
        i = i + 1;
    }
    let nodes = build_maze_nodes(grid, row_count, col_count);
    let ghost nodes0 = nodes@;
    let ghost ev_before = terrain_events@;
    wilsons_bounded(nodes, &mut terrain_events, rng, row_count, col_count);
    proof {
        assert forall|j: int| 0 <= j < ev_before.len() implies #[trigger] terrain_events@[j]
            == ev_before[j] by {
            assert(terrain_events@.subrange(0, ev_before.len() as int)[j] == terrain_events@[j]);
        }
        assert forall|j: int| 0 <= j < terrain_events@.len() implies known_tile_id(
            grid@,
            (#[trigger] terrain_events@[j]).tile_id as int,
        ) by {
            if j < grid@.len() {
                assert(terrain_events@[j].tile_id == grid@[j].id);
            } else {
                let id = terrain_events@[j].tile_id as int;
                assert(m_known_id(nodes0, rc, cc, id));
                let (r, c) = choose|r: int, c: int|
                    0 <= r < rc && 0 <= c < cc && (#[trigger] mnode_at(nodes0, r, c)).tile_id == id;
                assert(crate::tile::cell_covered(grid@, r, c));
                let t = choose|t: int|
                    0 <= t < grid@.len() && crate::tile::tile_at_pos(#[trigger] grid@[t], r, c);
                assert(mnode_at(nodes0, grid@[t].row as int, grid@[t].col as int).tile_id
                    == grid@[t].id);
            }
        }
        assert forall|i2: int|
            0 <= i2 < grid@.len() && is_room(
                (#[trigger] grid@[i2]).row as int,
                grid@[i2].col as int,
            ) implies has_wall_removal(terrain_events@, grid@[i2].id as int) by {
            let t = grid@[i2];
            assert(mnode_at(nodes0, t.row as int, t.col as int).tile_id == t.id);
        }
        assert(ev_before.len() == grid@.len());
        assert forall|j: int|
            grid@.len() <= j < terrain_events@.len() implies ((
        #[trigger] terrain_events@[j]).build_type == BuildType::Wall && tile_event_cell_ok(
            grid@,
            rc,
            cc,
            terrain_events@[j],
        )) by {
            assert(maze_event_cell_ok(nodes0, rc, cc, terrain_events@[j]));
            let (r, c) = choose|r: int, c: int|
                0 <= r < rc && 0 <= c < cc && (#[trigger] mnode_at(nodes0, r, c)).tile_id
                    == terrain_events@[j].tile_id && (is_room(r, c) || connector_ok(r, c, rc, cc));
            assert(crate::tile::cell_covered(grid@, r, c));
            let i = choose|i: int|
                0 <= i < grid@.len() && crate::tile::tile_at_pos(#[trigger] grid@[i], r, c);
            assert(mnode_at(nodes0, grid@[i].row as int, grid@[i].col as int).tile_id
                == grid@[i].id);
        }
    }
    terrain_events
}

} // verus!
