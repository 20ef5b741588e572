//! Wilson's algorithm: builds a uniform spanning tree over the room
//! lattice by loop-erased random walks.  This is the standard variant:
//! when a walk runs into itself, it restarts from the intersection
//! point; on reaching the tree it is committed whole, intermediate wall
//! cells included.

use vstd::prelude::*;
use crate::policy::{dims_ok, in_bounds};
use crate::rng::rng_below;
use crate::terrain::{has_wall_removal, BuildType, TerrainAction, TerrainNode};
use crate::terrain_node::{
    build_maze_nodes, connector_ok, count_unvisited_rooms, has_adjacent_link_removal, is_room,
    lemma_adjacent_link_extend, m_events_known, m_known_id, m_lemma_count_strict,
    m_lemma_reflect_at, m_lemma_update_cell, m_positions_ok, m_statics, maze_event_cell_ok,
    mgrid_dims, mnode_at, room_unvisited, tile_event_cell_ok, tiles_adjacent_link_removal,
    walk_contains, Node, NodeState,
};
use crate::tile::{known_tile_id, tiles_wf, Tile};

verus! {

/// Sets the maze state of one cell, leaving everything else untouched.
pub(crate) fn set_state(
    grid: &mut Vec<Vec<Node>>,
    r: usize,
    c: usize,
    s: NodeState,
    Ghost(rc): Ghost<int>,
    Ghost(cc): Ghost<int>,
)
    requires
        mgrid_dims(old(grid)@, rc, cc),
        r < rc,
        c < cc,
    ensures
        mgrid_dims(final(grid)@, rc, cc),
        mnode_at(final(grid)@, r as int, c as int).state == s,
        mnode_at(final(grid)@, r as int, c as int).tile_id == mnode_at(
            old(grid)@,
            r as int,
            c as int,
        ).tile_id,
        mnode_at(final(grid)@, r as int, c as int).row == mnode_at(
            old(grid)@,
            r as int,
            c as int,
        ).row,
        mnode_at(final(grid)@, r as int, c as int).col == mnode_at(
            old(grid)@,
            r as int,
            c as int,
        ).col,
        forall|r2: int, c2: int|
            0 <= r2 < rc && 0 <= c2 < cc && !(r2 == r && c2 == c) ==> #[trigger] mnode_at(
                final(grid)@,
                r2,
                c2,
            ) == mnode_at(old(grid)@, r2, c2),
{
    let mut n = grid[r][c];
    n.state = s;
    let ghost prev = grid@;
    grid[r][c] = n;
    proof {
        m_lemma_update_cell(prev, grid@, rc, cc, r as int, c as int, n);
    }
}

/// One of the four room-to-room steps: two cells along one axis.
pub(crate) fn walk_direction(i: usize) -> (d: (isize, isize))
    requires
        i < 4,
    ensures
        (d.0 == 0 && (d.1 == 2 || d.1 == -2)) || (d.1 == 0 && (d.0 == 2 || d.0 == -2)),
{
    match i {
        0 => (0, 2),
        1 => (2, 0),
        2 => (0, -2),
        _ => (-2, 0),
    }
}

/// Picks a room cell that no walk has reached yet, uniformly at random;
/// `None` once every room is part of the tree.
#[verifier::loop_isolation(false)]
pub(crate) fn pick_random_unvisited(
    grid: &Vec<Vec<Node>>,
    rng: &mut rand::rngs::StdRng,
    row_count: usize,
    col_count: usize,
) -> (r: Option<(usize, usize)>)
    requires
        dims_ok(row_count as int, col_count as int),
        mgrid_dims(grid@, row_count as int, col_count as int),
        m_positions_ok(grid@, row_count as int, col_count as int),
    ensures
        match r {
            None => forall|r2: int, c2: int|
                0 <= r2 < row_count && 0 <= c2 < col_count && is_room(r2, c2) ==> (
                #[trigger] mnode_at(grid@, r2, c2)).state != NodeState::Unvisited,
            Some(p) => p.0 < row_count && p.1 < col_count && is_room(p.0 as int, p.1 as int)
                && mnode_at(grid@, p.0 as int, p.1 as int).state == NodeState::Unvisited,
        },
{
    let ghost rc = row_count as int;
    let ghost cc = col_count as int;
    let mut unvisited_nodes: Vec<(usize, usize)> = Vec::new();
    let mut r: usize = 0;
    while r < row_count
        invariant
            r <= row_count,
            forall|k: int|
                0 <= k < unvisited_nodes@.len() ==> {
                    let p = #[trigger] unvisited_nodes@[k];
                    p.0 < row_count && p.1 < col_count && is_room(p.0 as int, p.1 as int)
                        && mnode_at(grid@, p.0 as int, p.1 as int).state == NodeState::Unvisited
                },
            forall|r2: int, c2: int|
                0 <= r2 < r && 0 <= c2 < col_count && is_room(r2, c2) && (#[trigger] mnode_at(
                    grid@,
                    r2,
                    c2,
                )).state == NodeState::Unvisited ==> unvisited_nodes@.len() > 0,
        decreases row_count - r,
    {
        let mut c: usize = 0;
        while c < col_count
            invariant
                c <= col_count,
                r < row_count,
                forall|k: int|
                    0 <= k < unvisited_nodes@.len() ==> {
                        let p = #[trigger] unvisited_nodes@[k];
                        p.0 < row_count && p.1 < col_count && is_room(p.0 as int, p.1 as int)
                            && mnode_at(grid@, p.0 as int, p.1 as int).state == NodeState::Unvisited
                    },
                forall|r2: int, c2: int|
                    0 <= r2 < r && 0 <= c2 < col_count && is_room(r2, c2) && (#[trigger] mnode_at(
                        grid@,
                        r2,
                        c2,
                    )).state == NodeState::Unvisited ==> unvisited_nodes@.len() > 0,
                forall|c2: int|
                    0 <= c2 < c && is_room(r as int, c2) && (#[trigger] mnode_at(
                        grid@,
                        r as int,
                        c2,
                    )).state == NodeState::Unvisited ==> unvisited_nodes@.len() > 0,
            decreases col_count - c,
        {
            let node = grid[r][c];
            proof {
                assert(node == mnode_at(grid@, r as int, c as int));
            }
            if node.state == NodeState::Unvisited && node.row % 2 == 0 && node.col % 2 == 0 {
                unvisited_nodes.push((node.row, node.col));
            }
            c = c + 1;
        }
        r = r + 1;
    }

    if unvisited_nodes.len() == 0 {
        None
    } else {
        let idx = rng_below(rng, unvisited_nodes.len());
        Some(unvisited_nodes[idx])
    }
}

/// After one walk step (one cell marked as on-the-walk and appended to
/// the record), the walk's bookkeeping still holds: rooms change state
/// only from untouched to on-the-walk, and every on-the-walk cell is
/// recorded.
pub(crate) proof fn lemma_walk_step(
    g0: Seq<Vec<Node>>,
    pre: Seq<Vec<Node>>,
    post: Seq<Vec<Node>>,
    old_path: Seq<(usize, usize)>,
    new_path: Seq<(usize, usize)>,
    rc: int,
    cc: int,
    ur: int,
    uc: int,
)
    requires
        0 <= ur < rc,
        0 <= uc < cc,
        forall|r: int, c: int|
            0 <= r < rc && 0 <= c < cc && is_room(r, c) && (#[trigger] mnode_at(pre, r, c)).state
                != mnode_at(g0, r, c).state ==> (mnode_at(g0, r, c).state == NodeState::Unvisited
                && mnode_at(pre, r, c).state == NodeState::Current && walk_contains(old_path, r, c)),
        forall|r: int, c: int|
            0 <= r < rc && 0 <= c < cc && (#[trigger] mnode_at(pre, r, c)).state
                == NodeState::Current ==> walk_contains(old_path, r, c),
        is_room(ur, uc) ==> mnode_at(g0, ur, uc).state == NodeState::Unvisited,
        mnode_at(post, ur, uc).state == NodeState::Current,
        forall|r: int, c: int|
            0 <= r < rc && 0 <= c < cc && !(r == ur && c == uc) ==> #[trigger] mnode_at(post, r, c)
                == mnode_at(pre, r, c),
        old_path.len() <= new_path.len(),
        forall|k: int| 0 <= k < old_path.len() ==> new_path[k] == old_path[k],
        walk_contains(new_path, ur, uc),
    ensures
        forall|r: int, c: int|
            0 <= r < rc && 0 <= c < cc && is_room(r, c) && (#[trigger] mnode_at(post, r, c)).state
                != mnode_at(g0, r, c).state ==> (mnode_at(g0, r, c).state == NodeState::Unvisited
                && mnode_at(post, r, c).state == NodeState::Current && walk_contains(new_path, r, c)),
        forall|r: int, c: int|
            0 <= r < rc && 0 <= c < cc && (#[trigger] mnode_at(post, r, c)).state
                == NodeState::Current ==> walk_contains(new_path, r, c),
{
    assert forall|r: int, c: int|
        0 <= r < rc && 0 <= c < cc && is_room(r, c) && (#[trigger] mnode_at(post, r, c)).state
            != mnode_at(g0, r, c).state implies (mnode_at(g0, r, c).state == NodeState::Unvisited
        && mnode_at(post, r, c).state == NodeState::Current && walk_contains(new_path, r, c)) by {
        if r == ur && c == uc {
        } else {
            assert(mnode_at(post, r, c) == mnode_at(pre, r, c));
            crate::terrain_node::lemma_walk_contains_extend(old_path, new_path, r, c);
        }
    }
    assert forall|r: int, c: int|
        0 <= r < rc && 0 <= c < cc && (#[trigger] mnode_at(post, r, c)).state
            == NodeState::Current implies walk_contains(new_path, r, c) by {
        if r == ur && c == uc {
        } else {
            assert(mnode_at(post, r, c) == mnode_at(pre, r, c));
            crate::terrain_node::lemma_walk_contains_extend(old_path, new_path, r, c);
        }
    }
}

/// A loop-erased random walk from an unvisited room until it touches
/// the tree.  Only the `state` fields change; a room's state changes
/// only from untouched to on-the-walk, and every cell left on the walk
/// is recorded in the returned sequence, whose head is an untouched
/// room.
#[verifier::rlimit(100)]
#[verifier::loop_isolation(false)]
pub(crate) fn random_walk(
    start_row: usize,
    start_col: usize,
    grid: &mut Vec<Vec<Node>>,
    rng: &mut rand::rngs::StdRng,
    row_count: usize,
    col_count: usize,
) -> (walk: Vec<(usize, usize)>)
    requires
        dims_ok(row_count as int, col_count as int),
        row_count >= 3 || col_count >= 3,
        mgrid_dims(old(grid)@, row_count as int, col_count as int),
        m_positions_ok(old(grid)@, row_count as int, col_count as int),
        start_row < row_count,
        start_col < col_count,
        is_room(start_row as int, start_col as int),
        mnode_at(old(grid)@, start_row as int, start_col as int).state == NodeState::Unvisited,
        forall|r: int, c: int|
            0 <= r < row_count && 0 <= c < col_count ==> (#[trigger] mnode_at(
                old(grid)@,
                r,
                c,
            )).state != NodeState::Current,
    ensures
        mgrid_dims(final(grid)@, row_count as int, col_count as int),
        m_statics(old(grid)@, final(grid)@, row_count as int, col_count as int),
        m_positions_ok(final(grid)@, row_count as int, col_count as int),
        forall|r: int, c: int|
            0 <= r < row_count && 0 <= c < col_count && is_room(r, c) && (#[trigger] mnode_at(
                final(grid)@,
                r,
                c,
            )).state != mnode_at(old(grid)@, r, c).state ==> (mnode_at(old(grid)@, r, c).state
                == NodeState::Unvisited && mnode_at(final(grid)@, r, c).state == NodeState::Current
                && walk_contains(walk@, r, c)),
        forall|r: int, c: int|
            0 <= r < row_count && 0 <= c < col_count && (#[trigger] mnode_at(
                final(grid)@,
                r,
                c,
            )).state == NodeState::Current ==> walk_contains(walk@, r, c),
        forall|r: int, c: int|
            0 <= r < row_count && 0 <= c < col_count && (#[trigger] mnode_at(
                final(grid)@,
                r,
                c,
            )).state == NodeState::Path ==> mnode_at(old(grid)@, r, c).state == NodeState::Path,
        walk@.len() >= 3,
        walk@.len() % 2 == 1,
        forall|k: int|
            0 <= k < walk@.len() ==> (#[trigger] walk@[k]).0 < row_count && walk@[k].1 < col_count,
        is_room(walk@[0].0 as int, walk@[0].1 as int),
        mnode_at(old(grid)@, walk@[0].0 as int, walk@[0].1 as int).state == NodeState::Unvisited,
        walk@[1] == walk@[0],
        forall|k: int|
            0 <= k < walk@.len() && k % 2 == 1 ==> is_room(
                (#[trigger] walk@[k]).0 as int,
                walk@[k].1 as int,
            ),
        forall|k: int|
            2 <= k < walk@.len() && k % 2 == 0 ==> connector_ok(
                (#[trigger] walk@[k]).0 as int,
                walk@[k].1 as int,
                row_count as int,
                col_count as int,
            ) && ((walk@[k].0 == walk@[k - 1].0 && (walk@[k].1 == walk@[k - 1].1 + 1 || walk@[k].1
                + 1 == walk@[k - 1].1)) || (walk@[k].1 == walk@[k - 1].1 && (walk@[k].0 == walk@[k
                - 1].0 + 1 || walk@[k].0 + 1 == walk@[k - 1].0))),
{
    let ghost rc = row_count as int;
    let ghost cc = col_count as int;
    let ghost g0 = grid@;

    if !(grid[start_row][start_col].state == NodeState::Unvisited) {
        proof {
            assert(mnode_at(grid@, start_row as int, start_col as int).state
                == NodeState::Unvisited);
        }
        return Vec::new();
    }

    let mut current_row = start_row;
    let mut current_col = start_col;
    let mut path: Vec<(usize, usize)> = Vec::new();
    path.push((start_row, start_col));

    proof {
        assert((row_count as int) * (col_count as int) <= 0xFFFF * 0xFFFF) by (nonlinear_arith)
            requires
                0 <= row_count as int <= 0xFFFF,
                0 <= col_count as int <= 0xFFFF,
        ;
    }
    let n_cells: u64 = (row_count as u64) * (col_count as u64);
    proof {
        assert((n_cells + 1) * (n_cells + 1) + 0x100000 < 0xFFFF_FFFF_FFFF_FFFF)
            by (nonlinear_arith)
            requires
                0 <= n_cells <= 0xFFFF * 0xFFFF,
        ;
    }
    let fuel: u64 = (n_cells + 1) * (n_cells + 1) + 0x100000;
    let mut steps: u64 = 0;

    loop
        invariant
            mgrid_dims(grid@, rc, cc),
            m_statics(g0, grid@, rc, cc),
            m_positions_ok(grid@, rc, cc),
            current_row < row_count,
            current_col < col_count,
            is_room(current_row as int, current_col as int),
            mnode_at(g0, current_row as int, current_col as int).state == NodeState::Unvisited,
            path@.len() >= 1,
            path@.len() % 2 == 1,
            forall|k: int|
                0 <= k < path@.len() ==> (#[trigger] path@[k]).0 < row_count && path@[k].1
                    < col_count,
            is_room(path@[0].0 as int, path@[0].1 as int),
            mnode_at(g0, path@[0].0 as int, path@[0].1 as int).state == NodeState::Unvisited,
            path@.len() == 1 ==> path@[0] == (current_row, current_col),
            path@.len() >= 2 ==> path@[1] == path@[0],
            forall|k: int|
                0 <= k < path@.len() && k % 2 == 1 ==> is_room(
                    (#[trigger] path@[k]).0 as int,
                    path@[k].1 as int,
                ),
            forall|k: int|
                2 <= k < path@.len() && k % 2 == 0 ==> connector_ok(
                    (#[trigger] path@[k]).0 as int,
                    path@[k].1 as int,
                    rc,
                    cc,
                ) && ((path@[k].0 == path@[k - 1].0 && (path@[k].1 == path@[k - 1].1 + 1
                || path@[k].1 + 1 == path@[k - 1].1)) || (path@[k].1 == path@[k - 1].1 && (
            path@[k].0 == path@[k - 1].0 + 1 || path@[k].0 + 1 == path@[k - 1].0))),
            forall|k: int|
                0 <= k < path@.len() ==> mnode_at(
                    grid@,
                    (#[trigger] path@[k]).0 as int,
                    path@[k].1 as int,
                ).state != NodeState::Path,
            forall|r: int, c: int|
                0 <= r < rc && 0 <= c < cc && is_room(r, c) && (#[trigger] mnode_at(
                    grid@,
                    r,
                    c,
                )).state != mnode_at(g0, r, c).state ==> (mnode_at(g0, r, c).state
                    == NodeState::Unvisited && mnode_at(grid@, r, c).state == NodeState::Current
                    && walk_contains(path@, r, c)),
            forall|r: int, c: int|
                0 <= r < rc && 0 <= c < cc && (#[trigger] mnode_at(grid@, r, c)).state
                    == NodeState::Current ==> walk_contains(path@, r, c),
            forall|r: int, c: int|
                0 <= r < rc && 0 <= c < cc && (#[trigger] mnode_at(grid@, r, c)).state
                    == NodeState::Path ==> mnode_at(g0, r, c).state == NodeState::Path,
            steps <= fuel,
        decreases fuel - steps,
    {
        if steps >= fuel {
            break ;
        }
        steps = steps + 1;

        let dir_i = rng_below(rng, 4);
        let (dr, dc) = walk_direction(dir_i);
        let new_row_i = current_row as isize + dr;
        let new_col_i = current_col as isize + dc;

        if in_bounds(new_row_i, new_col_i, row_count, col_count) {
            let u_new_row = new_row_i as usize;
            let u_new_col = new_col_i as usize;
            proof {
                assert(is_room(u_new_row as int, u_new_col as int));
            }

            if grid[u_new_row][u_new_col].state == NodeState::Current {
                // The walk ran into itself: erase it and restart from
                // the intersection point.
                proof {
                    assert(mnode_at(grid@, u_new_row as int, u_new_col as int).state
                        == NodeState::Current);
                    assert(mnode_at(g0, u_new_row as int, u_new_col as int).state
                        == NodeState::Unvisited);
                }
                let ghost old_path = path@;
                let mut k: usize = 0;
                while k < path.len()
                    invariant
                        mgrid_dims(grid@, rc, cc),
                        m_statics(g0, grid@, rc, cc),
                        m_positions_ok(grid@, rc, cc),
                        path@ == old_path,
                        k <= path@.len(),
                        forall|j: int|
                            0 <= j < k ==> mnode_at(
                                grid@,
                                (#[trigger] path@[j]).0 as int,
                                path@[j].1 as int,
                            ).state == NodeState::Unvisited,
                        forall|j: int|
                            0 <= j < path@.len() ==> mnode_at(
                                grid@,
                                (#[trigger] path@[j]).0 as int,
                                path@[j].1 as int,
                            ).state != NodeState::Path,
                        forall|r: int, c: int|
                            0 <= r < rc && 0 <= c < cc && is_room(r, c) && (#[trigger] mnode_at(
                                grid@,
                                r,
                                c,
                            )).state != mnode_at(g0, r, c).state ==> (mnode_at(g0, r, c).state
                                == NodeState::Unvisited && mnode_at(grid@, r, c).state
                                == NodeState::Current && walk_contains(path@, r, c)),
                        forall|r: int, c: int|
                            0 <= r < rc && 0 <= c < cc && (#[trigger] mnode_at(grid@, r, c)).state
                                == NodeState::Current ==> walk_contains(path@, r, c),
                        forall|r: int, c: int|
                            0 <= r < rc && 0 <= c < cc && (#[trigger] mnode_at(grid@, r, c)).state
                                == NodeState::Path ==> mnode_at(g0, r, c).state == NodeState::Path,
                    decreases path@.len() - k,
                {
                    let (pr, pc) = path[k];
                    set_state(grid, pr, pc, NodeState::Unvisited, Ghost(rc), Ghost(cc));
                    k = k + 1;
                }
                proof {
                    assert forall|r: int, c: int|
                        0 <= r < rc && 0 <= c < cc implies (#[trigger] mnode_at(grid@, r, c)).state
                        != NodeState::Current by {
                        if mnode_at(grid@, r, c).state == NodeState::Current {
                            let j = choose|j: int|
                                0 <= j < path@.len() && (#[trigger] path@[j]).0 == r && path@[j].1
                                    == c;
                            assert(mnode_at(grid@, r, c).state == NodeState::Unvisited);
                        }
                    }
                }
                let ghost g_reverted = grid@;
                path = Vec::new();
                path.push((u_new_row, u_new_col));
                set_state(grid, u_new_row, u_new_col, NodeState::Current, Ghost(rc), Ghost(cc));
                proof {
                    assert(path@[0] == (u_new_row, u_new_col));
                    assert(walk_contains(path@, u_new_row as int, u_new_col as int));
                    lemma_walk_step(
                        g0,
                        g_reverted,
                        grid@,
                        Seq::<(usize, usize)>::empty(),
                        path@,
                        rc,
                        cc,
                        u_new_row as int,
                        u_new_col as int,
                    );
                }
                current_row = u_new_row;
                current_col = u_new_col;
            } else if grid[u_new_row][u_new_col].state == NodeState::Path {
                // Touched the tree: record the room the walk stands on
                // and the crossing wall cell, and commit this walk.
                let ghost g_pre3 = grid@;
                let ghost p_pre3 = path@;
                set_state(grid, current_row, current_col, NodeState::Current, Ghost(rc), Ghost(cc));
                path.push((current_row, current_col));
                proof {
                    assert(path@[path@.len() - 1] == (current_row, current_col));
                    assert(walk_contains(path@, current_row as int, current_col as int));
                    lemma_walk_step(
                        g0,
                        g_pre3,
                        grid@,
                        p_pre3,
                        path@,
                        rc,
                        cc,
                        current_row as int,
                        current_col as int,
                    );
                }
                let mid_row = (new_row_i - dr / 2) as usize;
                let mid_col = (new_col_i - dc / 2) as usize;
                let ghost g_pre = grid@;
                let ghost p_pre = path@;
                set_state(grid, mid_row, mid_col, NodeState::Current, Ghost(rc), Ghost(cc));
                path.push((mid_row, mid_col));
                proof {
                    assert(path@[path@.len() - 1] == (mid_row, mid_col));
                    assert(!is_room(mid_row as int, mid_col as int));
                    assert(connector_ok(mid_row as int, mid_col as int, rc, cc));
                    assert(walk_contains(path@, mid_row as int, mid_col as int));
                    lemma_walk_step(
                        g0,
                        g_pre,
                        grid@,
                        p_pre,
                        path@,
                        rc,
                        cc,
                        mid_row as int,
                        mid_col as int,
                    );
                }
                return path;
            } else {
                let ghost g_pre1 = grid@;
                let ghost p_pre1 = path@;
                set_state(grid, current_row, current_col, NodeState::Current, Ghost(rc), Ghost(cc));
                path.push((current_row, current_col));
                proof {
                    assert(path@[path@.len() - 1] == (current_row, current_col));
                    assert(walk_contains(path@, current_row as int, current_col as int));
                    lemma_walk_step(
                        g0,
                        g_pre1,
                        grid@,
                        p_pre1,
                        path@,
                        rc,
                        cc,
                        current_row as int,
                        current_col as int,
                    );
                }

                let mid_row = (new_row_i - dr / 2) as usize;
                let mid_col = (new_col_i - dc / 2) as usize;
                let ghost g_pre2 = grid@;
                let ghost p_pre2 = path@;
                set_state(grid, mid_row, mid_col, NodeState::Current, Ghost(rc), Ghost(cc));
                path.push((mid_row, mid_col));
                proof {
                    assert(path@[path@.len() - 1] == (mid_row, mid_col));
                    assert(!is_room(mid_row as int, mid_col as int));
                    assert(connector_ok(mid_row as int, mid_col as int, rc, cc));
                    assert(walk_contains(path@, mid_row as int, mid_col as int));
                    lemma_walk_step(
                        g0,
                        g_pre2,
                        grid@,
                        p_pre2,
                        path@,
                        rc,
                        cc,
                        mid_row as int,
                        mid_col as int,
                    );
                }

                proof {
                    assert(mnode_at(grid@, u_new_row as int, u_new_col as int).state
                        == NodeState::Unvisited);
                    assert(mnode_at(g0, u_new_row as int, u_new_col as int).state
                        == NodeState::Unvisited);
                }
                current_row = u_new_row;
                current_col = u_new_col;
            }
        }
    }

    // The step budget ran out before the walk reached the tree (in
    // practice unreachable): erase this walk and fall back to a
    // one-room walk, so the committed record keeps its shape.
    fallback_walk(path, grid, row_count, col_count, Ghost(g0))
}

/// Erases an abandoned walk and replaces it with a one-room walk: the
/// record's head room and one wall cell beside it that lies between two
/// in-bounds rooms.  Keeps every guarantee of `random_walk`.
#[verifier::loop_isolation(false)]
fn fallback_walk(
    path: Vec<(usize, usize)>,
    grid: &mut Vec<Vec<Node>>,
    row_count: usize,
    col_count: usize,
    Ghost(g0): Ghost<Seq<Vec<Node>>>,
) -> (walk: Vec<(usize, usize)>)
    requires
        dims_ok(row_count as int, col_count as int),
        row_count >= 3 || col_count >= 3,
        mgrid_dims(g0, row_count as int, col_count as int),
        mgrid_dims(old(grid)@, row_count as int, col_count as int),
        m_statics(g0, old(grid)@, row_count as int, col_count as int),
        m_positions_ok(old(grid)@, row_count as int, col_count as int),
        forall|r: int, c: int|
            0 <= r < row_count && 0 <= c < col_count ==> (#[trigger] mnode_at(g0, r, c)).state
                != NodeState::Current,
        path@.len() >= 1,
        forall|j: int|
            0 <= j < path@.len() ==> (#[trigger] path@[j]).0 < row_count && path@[j].1
                < col_count,
        is_room(path@[0].0 as int, path@[0].1 as int),
        mnode_at(g0, path@[0].0 as int, path@[0].1 as int).state == NodeState::Unvisited,
        forall|j: int|
            0 <= j < path@.len() ==> mnode_at(
                old(grid)@,
                (#[trigger] path@[j]).0 as int,
                path@[j].1 as int,
            ).state != NodeState::Path,
        forall|r: int, c: int|
            0 <= r < row_count && 0 <= c < col_count && is_room(r, c) && (#[trigger] mnode_at(
                old(grid)@,
                r,
                c,
            )).state != mnode_at(g0, r, c).state ==> (mnode_at(g0, r, c).state
                == NodeState::Unvisited && mnode_at(old(grid)@, r, c).state == NodeState::Current
                && walk_contains(path@, r, c)),
        forall|r: int, c: int|
            0 <= r < row_count && 0 <= c < col_count && (#[trigger] mnode_at(
                old(grid)@,
                r,
                c,
            )).state == NodeState::Current ==> walk_contains(path@, r, c),
        forall|r: int, c: int|
            0 <= r < row_count && 0 <= c < col_count && (#[trigger] mnode_at(
                old(grid)@,
                r,
                c,
            )).state == NodeState::Path ==> mnode_at(g0, r, c).state == NodeState::Path,
    ensures
        mgrid_dims(final(grid)@, row_count as int, col_count as int),
        m_statics(g0, final(grid)@, row_count as int, col_count as int),
        m_positions_ok(final(grid)@, row_count as int, col_count as int),
        forall|r: int, c: int|
            0 <= r < row_count && 0 <= c < col_count && is_room(r, c) && (#[trigger] mnode_at(
                final(grid)@,
                r,
                c,
            )).state != mnode_at(g0, r, c).state ==> (mnode_at(g0, r, c).state
                == NodeState::Unvisited && mnode_at(final(grid)@, r, c).state
                == NodeState::Current && walk_contains(walk@, r, c)),
        forall|r: int, c: int|
            0 <= r < row_count && 0 <= c < col_count && (#[trigger] mnode_at(
                final(grid)@,
                r,
                c,
            )).state == NodeState::Current ==> walk_contains(walk@, r, c),
        forall|r: int, c: int|
            0 <= r < row_count && 0 <= c < col_count && (#[trigger] mnode_at(
                final(grid)@,
                r,
                c,
            )).state == NodeState::Path ==> mnode_at(g0, r, c).state == NodeState::Path,
        walk@.len() == 3,
        forall|k: int|
            0 <= k < walk@.len() ==> (#[trigger] walk@[k]).0 < row_count && walk@[k].1
                < col_count,
        is_room(walk@[0].0 as int, walk@[0].1 as int),
        mnode_at(g0, walk@[0].0 as int, walk@[0].1 as int).state == NodeState::Unvisited,
        walk@[1] == walk@[0],
        forall|k: int|
            0 <= k < walk@.len() && k % 2 == 1 ==> is_room(
                (#[trigger] walk@[k]).0 as int,
                walk@[k].1 as int,
            ),
        forall|k: int|
            2 <= k < walk@.len() && k % 2 == 0 ==> connector_ok(
                (#[trigger] walk@[k]).0 as int,
                walk@[k].1 as int,
                row_count as int,
                col_count as int,
            ) && ((walk@[k].0 == walk@[k - 1].0 && (walk@[k].1 == walk@[k - 1].1 + 1 || walk@[k].1
                + 1 == walk@[k - 1].1)) || (walk@[k].1 == walk@[k - 1].1 && (walk@[k].0 == walk@[k
                - 1].0 + 1 || walk@[k].0 + 1 == walk@[k - 1].0))),
{
    let ghost rc = row_count as int;
    let ghost cc = col_count as int;
    let (ur, uc) = path[0];
    let mut k: usize = 0;
    while k < path.len()
        invariant
            mgrid_dims(grid@, rc, cc),
            m_statics(g0, grid@, rc, cc),
            m_positions_ok(grid@, rc, cc),
            k <= path@.len(),
            forall|j: int|
                0 <= j < path@.len() ==> (#[trigger] path@[j]).0 < row_count && path@[j].1
                    < col_count,
            forall|j: int|
                0 <= j < k ==> mnode_at(
                    grid@,
                    (#[trigger] path@[j]).0 as int,
                    path@[j].1 as int,
                ).state == NodeState::Unvisited,
            forall|j: int|
                0 <= j < path@.len() ==> mnode_at(
                    grid@,
                    (#[trigger] path@[j]).0 as int,
                    path@[j].1 as int,
                ).state != NodeState::Path,
            forall|r: int, c: int|
                0 <= r < rc && 0 <= c < cc && is_room(r, c) && (#[trigger] mnode_at(
                    grid@,
                    r,
                    c,
                )).state != mnode_at(g0, r, c).state ==> (mnode_at(g0, r, c).state
                    == NodeState::Unvisited && mnode_at(grid@, r, c).state == NodeState::Current
                    && walk_contains(path@, r, c)),
            forall|r: int, c: int|
                0 <= r < rc && 0 <= c < cc && (#[trigger] mnode_at(grid@, r, c)).state
                    == NodeState::Current ==> walk_contains(path@, r, c),
            forall|r: int, c: int|
                0 <= r < rc && 0 <= c < cc && (#[trigger] mnode_at(grid@, r, c)).state
                    == NodeState::Path ==> mnode_at(g0, r, c).state == NodeState::Path,
        decreases path@.len() - k,
    {
        let (pr, pc) = path[k];
        set_state(grid, pr, pc, NodeState::Unvisited, Ghost(rc), Ghost(cc));
        k = k + 1;
    }
    proof {
        assert forall|r: int, c: int| 0 <= r < rc && 0 <= c < cc implies (#[trigger] mnode_at(
            grid@,
            r,
            c,
        )).state != NodeState::Current by {
            if mnode_at(grid@, r, c).state == NodeState::Current {
                let j = choose|j: int|
                    0 <= j < path@.len() && (#[trigger] path@[j]).0 == r && path@[j].1 == c;
                assert(mnode_at(grid@, r, c).state == NodeState::Unvisited);
            }
        }
        assert(is_room(ur as int, uc as int));
        assert(mnode_at(g0, ur as int, uc as int).state == NodeState::Unvisited);
    }
    let (mid_row, mid_col) = if uc + 2 < col_count {
        (ur, uc + 1)
    } else if uc >= 2 {
        (ur, uc - 1)
    } else if ur + 2 < row_count {
        (ur + 1, uc)
    } else {
        proof {
            assert(uc as int % 2 == 0 && ur as int % 2 == 0);
            assert(row_count >= 3);
            assert(ur >= 2);
        }
        (ur - 1, uc)
    };
    proof {
        assert(connector_ok(mid_row as int, mid_col as int, rc, cc));
        assert(!is_room(mid_row as int, mid_col as int));
    }
    set_state(grid, ur, uc, NodeState::Current, Ghost(rc), Ghost(cc));
    set_state(grid, mid_row, mid_col, NodeState::Current, Ghost(rc), Ghost(cc));
    let mut fallback: Vec<(usize, usize)> = Vec::new();
    fallback.push((ur, uc));
    fallback.push((ur, uc));
    fallback.push((mid_row, mid_col));
    proof {
        assert(fallback@[0] == (ur, uc) && fallback@[1] == (ur, uc) && fallback@[2] == (
        mid_row,
        mid_col,
        ));
        assert(walk_contains(fallback@, ur as int, uc as int));
        assert(walk_contains(fallback@, mid_row as int, mid_col as int));
    }
    fallback
}


/// Carves a uniform spanning tree of the room lattice into the event
/// stream: after it returns, every room cell of the grid has a
/// wall-removal event.
pub fn wilsons(
    grid: Vec<Vec<Node>>,
    terrain_events: &mut Vec<TerrainNode>,
    rng: &mut rand::rngs::StdRng,
    row_count: usize,
    col_count: usize,
)
    requires
        dims_ok(row_count as int, col_count as int),
        row_count >= 2,
        col_count >= 2,
        mgrid_dims(grid@, row_count as int, col_count as int),
        m_positions_ok(grid@, row_count as int, col_count as int),
        forall|r: int, c: int|
            0 <= r < row_count && 0 <= c < col_count ==> (#[trigger] mnode_at(grid@, r, c)).state
                == NodeState::Unvisited,
    ensures
        final(terrain_events)@.len() >= old(terrain_events)@.len(),
        final(terrain_events)@.subrange(0, old(terrain_events)@.len() as int) == old(
            terrain_events,
        )@,
        m_events_known(
            grid@,
            row_count as int,
            col_count as int,
            final(terrain_events)@,
            old(terrain_events)@.len() as int,
        ),
        forall|r: int, c: int|
            0 <= r < row_count && 0 <= c < col_count && is_room(r, c) ==> has_wall_removal(
                final(terrain_events)@,
                (#[trigger] mnode_at(grid@, r, c)).tile_id as int,
            ),
        forall|j: int|
            old(terrain_events)@.len() <= j < final(terrain_events)@.len() ==> ((
            #[trigger] final(terrain_events)@[j]).action == TerrainAction::Removed
                && final(terrain_events)@[j].build_type == BuildType::Wall),
        forall|j: int|
            old(terrain_events)@.len() <= j < final(terrain_events)@.len()
                ==> maze_event_cell_ok(
                grid@,
                row_count as int,
                col_count as int,
                #[trigger] final(terrain_events)@[j],
            ),
        exists|sr: int, sc: int|
            0 <= sr < row_count && 0 <= sc < col_count && #[trigger] is_room(sr, sc) && forall|
                r: int,
                c: int,
            |
                0 <= r < row_count && 0 <= c < col_count && is_room(r, c) && !(r == sr && c == sc)
                    ==> #[trigger] has_adjacent_link_removal(
                    grid@,
                    row_count as int,
                    col_count as int,
                    final(terrain_events)@,
                    old(terrain_events)@.len() as int,
                    r,
                    c,
                ),
        final(terrain_events)@.len() > old(terrain_events)@.len(),
        ({
            let e = final(terrain_events)@[old(terrain_events)@.len() as int];
            &&& e.action == TerrainAction::Removed
            &&& e.build_type == BuildType::Wall
            &&& exists|r: int, c: int|
                0 <= r < row_count && 0 <= c < col_count && is_room(r, c) && (#[trigger] mnode_at(
                    grid@,
                    r,
                    c,
                )).tile_id == e.tile_id
        }),
{
    let ghost rc = row_count as int;
    let ghost cc = col_count as int;
    let ghost g0 = grid@;
    let ghost ev0 = terrain_events@;
    let mut grid = grid;

    let seed_row = rng_below(rng, row_count / 2) * 2;
    let seed_col = rng_below(rng, col_count / 2) * 2;
    let seed_id = grid[seed_row][seed_col].tile_id;
    set_state(&mut grid, seed_row, seed_col, NodeState::Path, Ghost(rc), Ghost(cc));
    proof {
        assert(m_known_id(g0, rc, cc, seed_id as int));
    }
    terrain_events.push(
        TerrainNode { tile_id: seed_id, action: TerrainAction::Removed, build_type: BuildType::Wall },
    );
    proof {
        assert(terrain_events@.subrange(0, ev0.len() as int) == ev0);
        assert(terrain_events@[terrain_events@.len() - 1] == (TerrainNode {
            tile_id: seed_id,
            action: TerrainAction::Removed,
            build_type: BuildType::Wall,
        }));
        assert(terrain_events@[ev0.len() as int].tile_id == seed_id);
        assert(is_room(seed_row as int, seed_col as int) && mnode_at(
            g0,
            seed_row as int,
            seed_col as int,
        ).tile_id == seed_id);
        assert forall|r: int, c: int|
            0 <= r < rc && 0 <= c < cc && (#[trigger] mnode_at(grid@, r, c)).state
                == NodeState::Path implies has_wall_removal(
            terrain_events@,
            mnode_at(grid@, r, c).tile_id as int,
        ) by {
            if r == seed_row && c == seed_col {
                assert(mnode_at(grid@, r, c).tile_id == seed_id);
            } else {
                assert(mnode_at(grid@, r, c) == mnode_at(g0, r, c));
            }
        }
    }

    loop
        invariant
            rc == row_count as int,
            cc == col_count as int,
            dims_ok(rc, cc),
            mgrid_dims(grid@, rc, cc),
            m_statics(g0, grid@, rc, cc),
            m_positions_ok(grid@, rc, cc),
            seed_row < row_count && seed_col < col_count,
            is_room(seed_row as int, seed_col as int),
            mnode_at(grid@, seed_row as int, seed_col as int).state == NodeState::Path,
            forall|r: int, c: int|
                0 <= r < rc && 0 <= c < cc ==> (#[trigger] mnode_at(grid@, r, c)).state
                    != NodeState::Current,
            forall|r: int, c: int|
                0 <= r < rc && 0 <= c < cc && (#[trigger] mnode_at(grid@, r, c)).state
                    == NodeState::Path ==> has_wall_removal(
                    terrain_events@,
                    mnode_at(grid@, r, c).tile_id as int,
                ),
            terrain_events@.len() >= ev0.len(),
            terrain_events@.subrange(0, ev0.len() as int) == ev0,
            m_events_known(g0, rc, cc, terrain_events@, ev0.len() as int),
            forall|j: int|
                ev0.len() <= j < terrain_events@.len() ==> ((#[trigger] terrain_events@[j]).action
                    == TerrainAction::Removed && terrain_events@[j].build_type == BuildType::Wall),
            forall|j: int|
                ev0.len() <= j < terrain_events@.len() ==> maze_event_cell_ok(
                    g0,
                    rc,
                    cc,
                    #[trigger] terrain_events@[j],
                ),
            terrain_events@.len() > ev0.len(),
            ({
                let e = terrain_events@[ev0.len() as int];
                &&& e.action == TerrainAction::Removed
                &&& e.build_type == BuildType::Wall
                &&& exists|r: int, c: int|
                    0 <= r < rc && 0 <= c < cc && is_room(r, c) && (#[trigger] mnode_at(
                        g0,
                        r,
                        c,
                    )).tile_id == e.tile_id
            }),
            forall|r: int, c: int|
                0 <= r < rc && 0 <= c < cc && is_room(r, c) && (#[trigger] mnode_at(
                    grid@,
                    r,
                    c,
                )).state == NodeState::Path && !(r == seed_row as int && c == seed_col as int)
                    ==> has_adjacent_link_removal(
                    g0,
                    rc,
                    cc,
                    terrain_events@,
                    ev0.len() as int,
                    r,
                    c,
                ),
        ensures
            mgrid_dims(grid@, rc, cc),
            m_statics(g0, grid@, rc, cc),
            forall|r: int, c: int|
                0 <= r < rc && 0 <= c < cc && is_room(r, c) ==> (#[trigger] mnode_at(
                    grid@,
                    r,
                    c,
                )).state == NodeState::Path,
            forall|r: int, c: int|
                0 <= r < rc && 0 <= c < cc && (#[trigger] mnode_at(grid@, r, c)).state
                    == NodeState::Path ==> has_wall_removal(
                    terrain_events@,
                    mnode_at(grid@, r, c).tile_id as int,
                ),
            terrain_events@.len() >= ev0.len(),
            terrain_events@.subrange(0, ev0.len() as int) == ev0,
            m_events_known(g0, rc, cc, terrain_events@, ev0.len() as int),
            seed_row < row_count && seed_col < col_count,
            is_room(seed_row as int, seed_col as int),
            forall|j: int|
                ev0.len() <= j < terrain_events@.len() ==> ((#[trigger] terrain_events@[j]).action
                    == TerrainAction::Removed && terrain_events@[j].build_type == BuildType::Wall),
            forall|j: int|
                ev0.len() <= j < terrain_events@.len() ==> maze_event_cell_ok(
                    g0,
                    rc,
                    cc,
                    #[trigger] terrain_events@[j],
                ),
            terrain_events@.len() > ev0.len(),
            ({
                let e = terrain_events@[ev0.len() as int];
                &&& e.action == TerrainAction::Removed
                &&& e.build_type == BuildType::Wall
                &&& exists|r: int, c: int|
                    0 <= r < rc && 0 <= c < cc && is_room(r, c) && (#[trigger] mnode_at(
                        g0,
                        r,
                        c,
                    )).tile_id == e.tile_id
            }),
            forall|r: int, c: int|
                0 <= r < rc && 0 <= c < cc && is_room(r, c) && (#[trigger] mnode_at(
                    grid@,
                    r,
                    c,
                )).state == NodeState::Path && !(r == seed_row as int && c == seed_col as int)
                    ==> has_adjacent_link_removal(
                    g0,
                    rc,
                    cc,
                    terrain_events@,
                    ev0.len() as int,
                    r,
                    c,
                ),
        decreases count_unvisited_rooms(grid@),
    {
        let picked = match pick_random_unvisited(&grid, rng, row_count, col_count) {
            Some(p) => p,
            None => { break ; },
        };
        let (row, col) = picked;
        proof {
            // Two distinct rooms exist (the seed is in the tree, the
            // picked room is not), so one grid extent is at least 3.
            if row_count < 3 && col_count < 3 {
                assert(row == 0 && col == 0);
                assert(seed_row == 0 && seed_col == 0);
                assert(false);
            }
        }
        let ghost g_top = grid@;
        let ghost ev_top = terrain_events@;
        let path = random_walk(row, col, &mut grid, rng, row_count, col_count);
        let ghost g_walk = grid@;
        proof {
            assert(m_statics(g0, grid@, rc, cc));
            assert forall|r: int, c: int|
                0 <= r < rc && 0 <= c < cc && (#[trigger] mnode_at(grid@, r, c)).state
                    == NodeState::Path implies has_wall_removal(
                terrain_events@,
                mnode_at(grid@, r, c).tile_id as int,
            ) by {
                assert(mnode_at(g_top, r, c).state == NodeState::Path);
                assert(mnode_at(grid@, r, c).tile_id == mnode_at(g_top, r, c).tile_id);
            }
            assert forall|r: int, c: int|
                0 <= r < rc && 0 <= c < cc && room_unvisited(#[trigger] mnode_at(grid@, r, c))
                implies room_unvisited(mnode_at(g_top, r, c)) by {
                if mnode_at(grid@, r, c).state != mnode_at(g_top, r, c).state {
                    assert(is_room(r, c));
                }
            }
            assert(mnode_at(grid@, seed_row as int, seed_col as int).state == NodeState::Path)
                by {
                if mnode_at(grid@, seed_row as int, seed_col as int).state != mnode_at(
                    g_top,
                    seed_row as int,
                    seed_col as int,
                ).state {
                    assert(mnode_at(g_top, seed_row as int, seed_col as int).state
                        == NodeState::Unvisited);
                }
            }
            assert forall|r: int, c: int|
                0 <= r < rc && 0 <= c < cc && is_room(r, c) && (#[trigger] mnode_at(
                    grid@,
                    r,
                    c,
                )).state == NodeState::Path && !(r == seed_row as int && c
                == seed_col as int) implies has_adjacent_link_removal(
                g0,
                rc,
                cc,
                terrain_events@,
                ev0.len() as int,
                r,
                c,
            ) by {
                assert(mnode_at(g_top, r, c).state == NodeState::Path);
            }
        }

        let mut k: usize = 0;
        while k < path.len()
            invariant
                rc == row_count as int,
                cc == col_count as int,
                dims_ok(rc, cc),
                mgrid_dims(grid@, rc, cc),
                m_statics(g0, grid@, rc, cc),
                m_positions_ok(grid@, rc, cc),
                k <= path@.len(),
                path@.len() >= 3,
                path@.len() % 2 == 1,
                path@[1] == path@[0],
                seed_row < row_count && seed_col < col_count,
                is_room(seed_row as int, seed_col as int),
                mnode_at(grid@, seed_row as int, seed_col as int).state == NodeState::Path,
                forall|j: int|
                    0 <= j < path@.len() && j % 2 == 1 ==> is_room(
                        (#[trigger] path@[j]).0 as int,
                        path@[j].1 as int,
                    ),
                is_room(path@[0].0 as int, path@[0].1 as int),
                forall|j: int|
                    2 <= j < path@.len() && j % 2 == 0 ==> connector_ok(
                        (#[trigger] path@[j]).0 as int,
                        path@[j].1 as int,
                        rc,
                        cc,
                    ) && ((path@[j].0 == path@[j - 1].0 && (path@[j].1 == path@[j - 1].1 + 1
                    || path@[j].1 + 1 == path@[j - 1].1)) || (path@[j].1 == path@[j - 1].1 && (
                path@[j].0 == path@[j - 1].0 + 1 || path@[j].0 + 1 == path@[j - 1].0))),
                forall|j: int|
                    ev0.len() <= j < terrain_events@.len() ==> ((
                    #[trigger] terrain_events@[j]).action == TerrainAction::Removed
                        && terrain_events@[j].build_type == BuildType::Wall),
                forall|j: int|
                    ev0.len() <= j < terrain_events@.len() ==> maze_event_cell_ok(
                        g0,
                        rc,
                        cc,
                        #[trigger] terrain_events@[j],
                    ),
                forall|r: int, c: int|
                    0 <= r < rc && 0 <= c < cc && is_room(r, c) && (#[trigger] mnode_at(
                        grid@,
                        r,
                        c,
                    )).state == NodeState::Path && !(r == seed_row as int && c
                        == seed_col as int) ==> (has_adjacent_link_removal(
                        g0,
                        rc,
                        cc,
                        terrain_events@,
                        ev0.len() as int,
                        r,
                        c,
                    ) || (k < path@.len() && ((k % 2 == 0 && k >= 2 && r == path@[k - 1].0 as int
                        && c == path@[k - 1].1 as int) || (1 <= k <= 2 && r == path@[0].0 as int
                        && c == path@[0].1 as int)))),
                terrain_events@.len() > ev0.len(),
                ({
                    let e = terrain_events@[ev0.len() as int];
                    &&& e.action == TerrainAction::Removed
                    &&& e.build_type == BuildType::Wall
                    &&& exists|r: int, c: int|
                        0 <= r < rc && 0 <= c < cc && is_room(r, c) && (#[trigger] mnode_at(
                            g0,
                            r,
                            c,
                        )).tile_id == e.tile_id
                }),
                forall|j: int|
                    0 <= j < path@.len() ==> (#[trigger] path@[j]).0 < row_count && path@[j].1
                        < col_count,
                forall|j: int|
                    0 <= j < k ==> mnode_at(
                        grid@,
                        (#[trigger] path@[j]).0 as int,
                        path@[j].1 as int,
                    ).state == NodeState::Path,
                forall|r: int, c: int|
                    0 <= r < rc && 0 <= c < cc && (#[trigger] mnode_at(grid@, r, c)).state
                        == NodeState::Current ==> walk_contains(path@, r, c),
                forall|r: int, c: int|
                    0 <= r < rc && 0 <= c < cc && (#[trigger] mnode_at(grid@, r, c)).state
                        == NodeState::Path ==> has_wall_removal(
                        terrain_events@,
                        mnode_at(grid@, r, c).tile_id as int,
                    ),
                forall|r: int, c: int|
                    0 <= r < rc && 0 <= c < cc && room_unvisited(#[trigger] mnode_at(grid@, r, c))
                        ==> room_unvisited(mnode_at(g_top, r, c)),
                terrain_events@.len() >= ev0.len(),
                terrain_events@.subrange(0, ev0.len() as int) == ev0,
                m_events_known(g0, rc, cc, terrain_events@, ev0.len() as int),
            decreases path@.len() - k,
        {
            let (pr, pc) = path[k];
            let id = grid[pr][pc].tile_id;
            proof {
                assert(mnode_at(grid@, pr as int, pc as int).tile_id == id);
                assert(mnode_at(g0, pr as int, pc as int).tile_id == id);
                assert(m_known_id(g0, rc, cc, id as int));
            }
            let ghost g_pre = grid@;
            let ghost ev_pre = terrain_events@;
            set_state(&mut grid, pr, pc, NodeState::Path, Ghost(rc), Ghost(cc));
            terrain_events.push(
                TerrainNode { tile_id: id, action: TerrainAction::Removed, build_type: BuildType::Wall },
            );
            proof {
                assert(terrain_events@.subrange(0, ev0.len() as int) == ev0);
                assert(terrain_events@[terrain_events@.len() - 1] == (TerrainNode {
                    tile_id: id,
                    action: TerrainAction::Removed,
                    build_type: BuildType::Wall,
                }));
                assert(has_wall_removal(terrain_events@, id as int));
                assert forall|r: int, c: int|
                    0 <= r < rc && 0 <= c < cc && (#[trigger] mnode_at(grid@, r, c)).state
                        == NodeState::Path implies has_wall_removal(
                    terrain_events@,
                    mnode_at(grid@, r, c).tile_id as int,
                ) by {
                    if r == pr && c == pc {
                    } else {
                        assert(mnode_at(grid@, r, c) == mnode_at(g_pre, r, c));
                        crate::terrain::lemma_removal_extend(
                            ev_pre,
                            terrain_events@,
                            mnode_at(grid@, r, c).tile_id as int,
                        );
                    }
                }
                assert forall|r: int, c: int|
                    0 <= r < rc && 0 <= c < cc && (#[trigger] mnode_at(grid@, r, c)).state
                        == NodeState::Current implies walk_contains(path@, r, c) by {
                    assert(mnode_at(grid@, r, c) == mnode_at(g_pre, r, c));
                }
                let jn = ev_pre.len() as int;
                assert(maze_event_cell_ok(g0, rc, cc, terrain_events@[jn])) by {
                    assert(mnode_at(g0, pr as int, pc as int).tile_id == terrain_events@[jn].tile_id);
                    if k % 2 == 1 || k == 0 {
                        assert(is_room(pr as int, pc as int));
                    } else {
                        assert(connector_ok(pr as int, pc as int, rc, cc));
                    }
                }
                if k % 2 == 0 && k >= 2 {
                    let ar = path@[k - 1].0 as int;
                    let ac = path@[k - 1].1 as int;
                    assert(has_adjacent_link_removal(
                        g0,
                        rc,
                        cc,
                        terrain_events@,
                        ev0.len() as int,
                        ar,
                        ac,
                    )) by {
                        assert(terrain_events@[jn].tile_id == mnode_at(
                            g0,
                            pr as int,
                            pc as int,
                        ).tile_id);
                        assert(connector_ok(pr as int, pc as int, rc, cc));
                        assert((pr as int == ar && (pc as int == ac + 1 || pc as int + 1 == ac))
                            || (pc as int == ac && (pr as int == ar + 1 || pr as int + 1 == ar)));
                    }
                }
                assert forall|r: int, c: int|
                    0 <= r < rc && 0 <= c < cc && is_room(r, c) && (#[trigger] mnode_at(
                        grid@,
                        r,
                        c,
                    )).state == NodeState::Path && !(r == seed_row as int && c
                        == seed_col as int) && !(k + 1 < path@.len() && (((k + 1) % 2 == 0 && k
                        + 1 >= 2 && r == path@[k as int].0 as int && c == path@[k as int].1 as int)
                        || (1 <= k + 1 <= 2 && r == path@[0].0 as int && c
                        == path@[0].1 as int))) implies has_adjacent_link_removal(
                    g0,
                    rc,
                    cc,
                    terrain_events@,
                    ev0.len() as int,
                    r,
                    c,
                ) by {
                    if mnode_at(g_pre, r, c).state == NodeState::Path {
                        if k < path@.len() && ((k % 2 == 0 && k >= 2 && r == path@[k - 1].0 as int
                            && c == path@[k - 1].1 as int) || (1 <= k <= 2 && r
                            == path@[0].0 as int && c == path@[0].1 as int)) {
                            // This room was waiting for its connector: when the
                            // record's next cell is that connector, its removal
                            // was just appended; otherwise the room stays excused.
                            assert(k % 2 == 0 && k >= 2 && r == path@[k - 1].0 as int && c
                                == path@[k - 1].1 as int);
                        } else {
                            lemma_adjacent_link_extend(
                                g0,
                                rc,
                                cc,
                                ev_pre,
                                terrain_events@,
                                ev0.len() as int,
                                r,
                                c,
                            );
                        }
                    } else {
                        // The cell just committed: a room only at the head or at
                        // an odd index, positions the next iteration still excuses.
                        assert(r == pr as int && c == pc as int);
                        assert(k % 2 == 1 || k == 0 || k == 1);
                        assert(false);
                    }
                }
            }
            k = k + 1;
        }

        proof {
            // After the commit no cell is on a walk, and the walk's
            // head, an untouched room before the walk, is in the tree:
            // the number of untouched rooms strictly shrank.
            assert forall|r: int, c: int|
                0 <= r < rc && 0 <= c < cc implies (#[trigger] mnode_at(grid@, r, c)).state
                != NodeState::Current by {
                if mnode_at(grid@, r, c).state == NodeState::Current {
                    let j = choose|j: int|
                        0 <= j < path@.len() && (#[trigger] path@[j]).0 == r && path@[j].1 == c;
                    assert(mnode_at(grid@, r, c).state == NodeState::Path);
                }
            }
            let hr = path@[0].0 as int;
            let hc = path@[0].1 as int;
            assert(mnode_at(grid@, hr, hc).state == NodeState::Path);
            assert(is_room(hr, hc) && mnode_at(g_top, hr, hc).row == hr && mnode_at(
                g_top,
                hr,
                hc,
            ).col == hc);
            assert(room_unvisited(mnode_at(g_top, hr, hc)));
            assert forall|r: int, i: int|
                0 <= r < g_top.len() && 0 <= i < g_top[r]@.len() implies (room_unvisited(
                #[trigger] grid@[r]@[i],
            ) ==> room_unvisited(g_top[r]@[i])) by {
                assert(mnode_at(grid@, r, i) == grid@[r]@[i]);
                assert(mnode_at(g_top, r, i) == g_top[r]@[i]);
            }
            assert(!room_unvisited(grid@[hr]@[hc]));
            assert(room_unvisited(g_top[hr]@[hc]));
            m_lemma_count_strict(g_top, grid@, hr, hc);
        }
    }
    proof {
        assert forall|r: int, c: int|
            0 <= r < rc && 0 <= c < cc && is_room(r, c) implies has_wall_removal(
            terrain_events@,
            mnode_at(g0, r, c).tile_id as int,
        ) by {
            assert(mnode_at(grid@, r, c).state == NodeState::Path);
            assert(mnode_at(grid@, r, c).tile_id == mnode_at(g0, r, c).tile_id);
        }
        let sr = seed_row as int;
        let sc = seed_col as int;
        assert(0 <= sr < rc && 0 <= sc < cc && is_room(sr, sc));
        assert forall|r: int, c: int|
            0 <= r < rc && 0 <= c < cc && is_room(r, c) && !(r == sr && c
            == sc) implies #[trigger] has_adjacent_link_removal(
            g0,
            rc,
            cc,
            terrain_events@,
            ev0.len() as int,
            r,
            c,
        ) by {
            assert(mnode_at(grid@, r, c).state == NodeState::Path);
        }
    }
}

/// Emits a wall for every tile, then carves a maze with Wilson's
/// algorithm: the returned stream opens with one `Added` wall per tile,
/// in snapshot order, and later removes the wall of every room cell.
pub fn setup_and_run_wilsons(
    grid: &Vec<Tile>,
    rng: &mut rand::rngs::StdRng,
    row_count: usize,
    col_count: usize,
) -> (terrain_events: Vec<TerrainNode>)
    requires
        dims_ok(row_count as int, col_count as int),
        row_count >= 2,
        col_count >= 2,
        tiles_wf(grid@, row_count as int, col_count as int),
    ensures
        terrain_events@.len() >= grid@.len(),
        forall|i: int|
            0 <= i < grid@.len() ==> #[trigger] terrain_events@[i] == (TerrainNode {
                tile_id: grid@[i].id,
                action: TerrainAction::Added,
                build_type: BuildType::Wall,
            }),
        forall|j: int|
            0 <= j < terrain_events@.len() ==> known_tile_id(
                grid@,
                (#[trigger] terrain_events@[j]).tile_id as int,
            ),
        forall|i: int|
            0 <= i < grid@.len() && is_room(
                (#[trigger] grid@[i]).row as int,
                grid@[i].col as int,
            ) ==> has_wall_removal(terrain_events@, grid@[i].id as int),
        forall|j: int|
            grid@.len() <= j < terrain_events@.len() ==> ((#[trigger] terrain_events@[j]).action
                == TerrainAction::Removed && terrain_events@[j].build_type == BuildType::Wall),
        forall|j: int|
            grid@.len() <= j < terrain_events@.len() ==> tile_event_cell_ok(
                grid@,
                row_count as int,
                col_count as int,
                #[trigger] terrain_events@[j],
            ),
        exists|sr: int, sc: int|
            0 <= sr < row_count && 0 <= sc < col_count && #[trigger] is_room(sr, sc) && forall|
                r: int,
                c: int,
            |
                0 <= r < row_count && 0 <= c < col_count && is_room(r, c) && !(r == sr && c == sc)
                    ==> #[trigger] tiles_adjacent_link_removal(
                    grid@,
                    row_count as int,
                    col_count as int,
                    terrain_events@,
                    grid@.len() as int,
                    r,
                    c,
                ),
        terrain_events@.len() > grid@.len(),
        ({
            let e = terrain_events@[grid@.len() as int];
            &&& e.action == TerrainAction::Removed
            &&& e.build_type == BuildType::Wall
            &&& exists|i: int|
                0 <= i < grid@.len() && (#[trigger] grid@[i]).id == e.tile_id && is_room(
                    grid@[i].row as int,
                    grid@[i].col as int,
                )
        }),
{
    let ghost rc = row_count as int;
    let ghost cc = col_count as int;
    let mut terrain_events: Vec<TerrainNode> = Vec::new();
    let mut i: usize = 0;
    while i < grid.len()
        invariant
            i <= grid@.len(),
            terrain_events@.len() == i,
            forall|j: int|
                0 <= j < i ==> #[trigger] terrain_events@[j] == (TerrainNode {
                    tile_id: grid@[j].id,
                    action: TerrainAction::Added,
                    build_type: BuildType::Wall,
                }),
        decreases grid@.len() - i,
    {
        let t = grid[i];
        terrain_events.push(
            TerrainNode { tile_id: t.id, action: TerrainAction::Added, build_type: BuildType::Wall },
        );
        i = i + 1;
    }
    let nodes = build_maze_nodes(grid, row_count, col_count);
    let ghost nodes0 = nodes@;
    let ghost ev_before = terrain_events@;
    wilsons(nodes, &mut terrain_events, rng, row_count, col_count);
    proof {
        assert forall|j: int| 0 <= j < ev_before.len() implies #[trigger] terrain_events@[j]
            == ev_before[j] by {
            assert(terrain_events@.subrange(0, ev_before.len() as int)[j] == terrain_events@[j]);
        }
        assert forall|j: int| 0 <= j < terrain_events@.len() implies known_tile_id(
            grid@,
            (#[trigger] terrain_events@[j]).tile_id as int,
        ) by {
            if j < grid@.len() {
                assert(terrain_events@[j].tile_id == grid@[j].id);
            } else {
                let id = terrain_events@[j].tile_id as int;
                assert(m_known_id(nodes0, rc, cc, id));
                let (r, c) = choose|r: int, c: int|
                    0 <= r < rc && 0 <= c < cc && (#[trigger] mnode_at(nodes0, r, c)).tile_id == id;
                assert(crate::tile::cell_covered(grid@, r, c));
                let t = choose|t: int|
                    0 <= t < grid@.len() && crate::tile::tile_at_pos(#[trigger] grid@[t], r, c);
                assert(mnode_at(nodes0, grid@[t].row as int, grid@[t].col as int).tile_id
                    == grid@[t].id);
            }
        }
        assert forall|i2: int|
            0 <= i2 < grid@.len() && is_room(
                (#[trigger] grid@[i2]).row as int,
                grid@[i2].col as int,
            ) implies has_wall_removal(terrain_events@, grid@[i2].id as int) by {
            let t = grid@[i2];
            assert(mnode_at(nodes0, t.row as int, t.col as int).tile_id == t.id);
        }
        assert(ev_before.len() == grid@.len());
        {
            let e = terrain_events@[grid@.len() as int];
            let (r, c) = choose|r: int, c: int|
                0 <= r < rc && 0 <= c < cc && is_room(r, c) && (#[trigger] mnode_at(
                    nodes0,
                    r,
                    c,
                )).tile_id == e.tile_id;
            assert(crate::tile::cell_covered(grid@, r, c));
            let i = choose|i: int|
                0 <= i < grid@.len() && crate::tile::tile_at_pos(#[trigger] grid@[i], r, c);
            assert(mnode_at(nodes0, grid@[i].row as int, grid@[i].col as int).tile_id
                == grid@[i].id);
            assert(grid@[i].id == e.tile_id && is_room(grid@[i].row as int, grid@[i].col as int));
        }
        assert forall|j: int|
            grid@.len() <= j < terrain_events@.len() implies tile_event_cell_ok(
            grid@,
            rc,
            cc,
            #[trigger] terrain_events@[j],
        ) by {
            assert(maze_event_cell_ok(nodes0, rc, cc, terrain_events@[j]));
            let (r, c) = choose|r: int, c: int|
                0 <= r < rc && 0 <= c < cc && (#[trigger] mnode_at(nodes0, r, c)).tile_id
                    == terrain_events@[j].tile_id && (is_room(r, c) || connector_ok(r, c, rc, cc));
            assert(crate::tile::cell_covered(grid@, r, c));
            let i = choose|i: int|
                0 <= i < grid@.len() && crate::tile::tile_at_pos(#[trigger] grid@[i], r, c);
            assert(mnode_at(nodes0, grid@[i].row as int, grid@[i].col as int).tile_id
                == grid@[i].id);
        }
        let (sr, sc) = choose|sr: int, sc: int|
            0 <= sr < rc && 0 <= sc < cc && #[trigger] is_room(sr, sc) && forall|r: int, c: int|
                0 <= r < rc && 0 <= c < cc && is_room(r, c) && !(r == sr && c == sc)
                    ==> #[trigger] has_adjacent_link_removal(
                    nodes0,
                    rc,
                    cc,
                    terrain_events@,
                    ev_before.len() as int,
                    r,
                    c,
                );
        assert(0 <= sr < rc && 0 <= sc < cc && is_room(sr, sc));
        assert forall|r: int, c: int|
            0 <= r < rc && 0 <= c < cc && is_room(r, c) && !(r == sr && c
            == sc) implies #[trigger] tiles_adjacent_link_removal(
            grid@,
            rc,
            cc,
            terrain_events@,
            grid@.len() as int,
            r,
            c,
        ) by {
            assert(has_adjacent_link_removal(
                nodes0,
                rc,
                cc,
                terrain_events@,
                ev_before.len() as int,
                r,
                c,
            ));
            let (j, mr, mc) = choose|j: int, mr: int, mc: int|
                ev_before.len() as int <= j < terrain_events@.len() && 0 <= mr < rc && 0 <= mc
                    < cc && (#[trigger] terrain_events@[j]).tile_id == (#[trigger] mnode_at(
                    nodes0,
                    mr,
                    mc,
                )).tile_id && terrain_events@[j].action == TerrainAction::Removed
                    && terrain_events@[j].build_type == BuildType::Wall && connector_ok(
                    mr,
                    mc,
                    rc,
                    cc,
                ) && ((mr == r && (mc == c + 1 || mc + 1 == c)) || (mc == c && (mr == r + 1 || mr
                    + 1 == r)));
            m_lemma_reflect_at(nodes0, grid@, rc, cc, mr, mc);
        }
    }
    terrain_events
}

} // verus!
