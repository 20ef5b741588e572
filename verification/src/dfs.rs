//! Depth-first search: a recursive descent that marks each cell visited
//! on entry and, the instant the goal is reached, builds the path by
//! appending each frame's tile id as the recursion unwinds.  It finds
//! *a* path, not a shortest one.  Neighbor coordinates follow the
//! configured topology: wrapped on a torus, rejected out of bounds.

use vstd::prelude::*;
use crate::algorithms::{AlgorithmInUse, PathfindingNode};
use crate::grid::{
    build_nodes, grid_dims, lemma_open_cell_is_open_tile, lemma_open_cell_transfer,
    lemma_update_cell, node_at, open_cell_id, positions_ok, same_statics, walls_visited,
};
use crate::node::Node;
use crate::policy::{adj_step, dfs_rotated_directions, dims_ok, dir_ok, handle_world_wrap_for_coords, king_delta};
use crate::rng::shuffle_directions;
use crate::tile::{open_at, open_tile_id, tile_id_at, tiles_wf, Tile};

verus! {

/// How many cells of one row are still unvisited.
pub open spec fn count_unvisited_row(row: Seq<Node>) -> nat
    decreases row.len(),
{
    if row.len() == 0 {
        0
    } else {
        count_unvisited_row(row.drop_last()) + if row.last().visited {
            0nat
        } else {
            1nat
        }
    }
}

/// How many cells of the whole array are still unvisited: the measure
/// that shrinks with every expansion and bounds the recursion depth.
pub open spec fn count_unvisited(nodes: Seq<Vec<Node>>) -> nat
    decreases nodes.len(),
{
    if nodes.len() == 0 {
        0
    } else {
        count_unvisited(nodes.drop_last()) + count_unvisited_row(nodes.last()@)
    }
}

proof fn lemma_count_row_mono(a: Seq<Node>, b: Seq<Node>)
    requires
        a.len() == b.len(),
        forall|i: int| 0 <= i < a.len() ==> ((#[trigger] a[i]).visited ==> b[i].visited),
    ensures
        count_unvisited_row(b) <= count_unvisited_row(a),
    decreases a.len(),
{
    if a.len() > 0 {
        assert forall|i: int|
            0 <= i < a.drop_last().len() implies ((#[trigger] a.drop_last()[i]).visited
            ==> b.drop_last()[i].visited) by {
            assert(a.drop_last()[i] == a[i]);
            assert(b.drop_last()[i] == b[i]);
        }
        lemma_count_row_mono(a.drop_last(), b.drop_last());
        assert(a.last() == a[a.len() - 1]);
        assert(b.last() == b[a.len() - 1]);
    }
}

proof fn lemma_count_row_strict(a: Seq<Node>, b: Seq<Node>, j: int)
    requires
        a.len() == b.len(),
        forall|i: int| 0 <= i < a.len() ==> ((#[trigger] a[i]).visited ==> b[i].visited),
        0 <= j < a.len(),
        !a[j].visited,
        b[j].visited,
    ensures
        count_unvisited_row(b) < count_unvisited_row(a),
    decreases a.len(),
{
    assert forall|i: int|
        0 <= i < a.drop_last().len() implies ((#[trigger] a.drop_last()[i]).visited
        ==> b.drop_last()[i].visited) by {
        assert(a.drop_last()[i] == a[i]);
        assert(b.drop_last()[i] == b[i]);
    }
    if j == a.len() - 1 {
        lemma_count_row_mono(a.drop_last(), b.drop_last());
        assert(a.last() == a[j]);
        assert(b.last() == b[j]);
    } else {
        assert(a.drop_last()[j] == a[j]);
        assert(b.drop_last()[j] == b[j]);
        lemma_count_row_strict(a.drop_last(), b.drop_last(), j);
        assert(a.last() == a[a.len() - 1]);
        assert(b.last() == b[a.len() - 1]);
    }
}

/// Marking more cells visited never increases the measure.
proof fn lemma_count_mono(a: Seq<Vec<Node>>, b: Seq<Vec<Node>>)
    requires
        a.len() == b.len(),
        forall|r: int| 0 <= r < a.len() ==> (#[trigger] a[r])@.len() == b[r]@.len(),
        forall|r: int, i: int|
            0 <= r < a.len() && 0 <= i < a[r]@.len() ==> ((#[trigger] a[r]@[i]).visited
                ==> b[r]@[i].visited),
    ensures
        count_unvisited(b) <= count_unvisited(a),
    decreases a.len(),
{
    if a.len() > 0 {
        let r = a.len() - 1;
        lemma_count_mono(a.drop_last(), b.drop_last());
        lemma_count_row_mono(a[r]@, b[r]@);
        assert(a.last() == a[r]);
        assert(b.last() == b[r]);
    }
}

/// Marking one previously unvisited cell visited strictly shrinks the
/// measure.
proof fn lemma_count_strict(a: Seq<Vec<Node>>, b: Seq<Vec<Node>>, r0: int, c0: int)
    requires
        a.len() == b.len(),
        forall|r: int| 0 <= r < a.len() ==> (#[trigger] a[r])@.len() == b[r]@.len(),
        forall|r: int, i: int|
            0 <= r < a.len() && 0 <= i < a[r]@.len() ==> ((#[trigger] a[r]@[i]).visited
                ==> b[r]@[i].visited),
        0 <= r0 < a.len(),
        0 <= c0 < a[r0]@.len(),
        !a[r0]@[c0].visited,
        b[r0]@[c0].visited,
    ensures
        count_unvisited(b) < count_unvisited(a),
    decreases a.len(),
{
    let r = a.len() - 1;
    assert(a.last() == a[r]);
    assert(b.last() == b[r]);
    if r0 == r {
        lemma_count_mono(a.drop_last(), b.drop_last());
        lemma_count_row_strict(a[r]@, b[r]@, c0);
    } else {
        assert(a.drop_last()[r0] == a[r0]);
        lemma_count_strict(a.drop_last(), b.drop_last(), r0, c0);
        lemma_count_row_mono(a[r]@, b[r]@);
    }
}

/// Position chain behind a found depth-first path segment: entry `k`
/// names the cell at `ps[k]`; the head sits at the goal `ep`, the tail
/// at the frame's own cell `cp`; consecutive entries are one king move
/// apart, each toward the frame above it.
pub open spec fn dfs_chain_ok(
    nodes: Seq<Vec<Node>>,
    wrap: bool,
    rc: int,
    cc: int,
    ep: (int, int),
    cp: (int, int),
    ps: Seq<(usize, usize)>,
    seg: Seq<usize>,
) -> bool {
    &&& ps.len() == seg.len()
    &&& ps.len() > 0
    &&& (ps[0].0 as int, ps[0].1 as int) == ep
    &&& (ps.last().0 as int, ps.last().1 as int) == cp
    &&& forall|k: int|
        0 <= k < ps.len() ==> ((#[trigger] ps[k]).0 < rc && ps[k].1 < cc && !node_at(
            nodes,
            ps[k].0 as int,
            ps[k].1 as int,
        ).is_wall && node_at(nodes, ps[k].0 as int, ps[k].1 as int).tile_id == seg[k])
    &&& forall|k: int|
        0 <= k < ps.len() - 1 ==> adj_step(
            wrap,
            ((#[trigger] ps[k + 1]).0 as int, ps[k + 1].1 as int),
            (ps[k].0 as int, ps[k].1 as int),
            rc,
            cc,
        )
}

/// Builds the node array from the snapshot and runs depth-first search
/// from the tile carrying `current_tile_id` toward the `End` tile.
/// Returns the expansion order and the goal-to-start path; no wall tile
/// ever appears in either.
pub fn setup_and_run_dfs(
    grid: &Vec<Tile>,
    current_tile_id: usize,
    algo: &AlgorithmInUse,
    rng: &mut rand::rngs::StdRng,
    row_count: usize,
    col_count: usize,
) -> (res: (Vec<PathfindingNode>, Vec<PathfindingNode>))
    requires
        dims_ok(row_count as int, col_count as int),
        tiles_wf(grid@, row_count as int, col_count as int),
        algo.direction_offset < 8,
    ensures
        forall|k: int|
            0 <= k < res.0@.len() ==> open_tile_id(grid@, (#[trigger] res.0@[k]).tile_id as int),
        forall|k: int|
            0 <= k < res.1@.len() ==> open_tile_id(grid@, (#[trigger] res.1@[k]).tile_id as int),
        res.1@.len() > 0 && crate::grid::last_end_pos(grid@) is Some ==> exists|i: int|
            0 <= i < grid@.len() && (#[trigger] grid@[i]).tile_type == crate::tile::TileType::End
                && res.1@[0].tile_id == grid@[i].id,
        crate::grid::last_end_pos(grid@) is None ==> res.1@.len() == 0,
        res.1@.len() > 0 ==> ({
            let sp = crate::grid::start_pos(grid@, current_tile_id as int);
            exists|i: int|
                0 <= i < grid@.len() && crate::tile::tile_at_pos(#[trigger] grid@[i], sp.0, sp.1)
                    && res.1@.last().tile_id == grid@[i].id
        }),
        ({
            let sp = crate::grid::start_pos(grid@, current_tile_id as int);
            &&& (open_at(grid@, sp.0, sp.1) ==> res.0@.len() > 0 && res.0@[0].tile_id
                == tile_id_at(grid@, sp.0, sp.1))
            &&& (!open_at(grid@, sp.0, sp.1) ==> res.0@.len() == 0 && res.1@.len() == 0)
            &&& (open_at(grid@, sp.0, sp.1) && crate::grid::last_end_pos(grid@) == Some(sp)
                ==> res.1@.len() > 0)
            &&& (res.1@.len() > 0 ==> crate::grid::tile_path_chain(
                grid@,
                algo.world_wrap_enabled,
                row_count as int,
                col_count as int,
                crate::grid::goal_pos_eff(grid@),
                crate::grid::goal_pos_eff(grid@),
                res.1@,
            ))
        }),
{
    let ghost rc = row_count as int;
    let ghost cc = col_count as int;
    let mut visited: Vec<usize> = Vec::new();
    let mut path: Vec<usize> = Vec::new();
    let (mut nodes, end_tile_pos, current_tile_pos) = build_nodes(
        grid,
        row_count,
        col_count,
        current_tile_id,
    );
    let ghost nodes0 = nodes@;

    dfs(
        &mut nodes,
        current_tile_pos,
        end_tile_pos,
        &mut visited,
        &mut path,
        algo,
        rng,
        row_count,
        col_count,
    );

    let mut visited_out: Vec<PathfindingNode> = Vec::new();
    let mut i: usize = 0;
    while i < visited.len()
        invariant
            i <= visited@.len(),
            visited_out@.len() == i,
            forall|k: int|
                0 <= k < visited@.len() ==> open_cell_id(
                    nodes0,
                    rc,
                    cc,
                    #[trigger] visited@[k] as int,
                ),
            forall|k: int| 0 <= k < i ==> (#[trigger] visited_out@[k]).tile_id == visited@[k],
        decreases visited@.len() - i,
    {
        visited_out.push(PathfindingNode { tile_id: visited[i] });
        i = i + 1;
    }
    let mut path_out: Vec<PathfindingNode> = Vec::new();
    let mut j: usize = 0;
    while j < path.len()
        invariant
            j <= path@.len(),
            path_out@.len() == j,
            forall|k: int|
                0 <= k < path@.len() ==> open_cell_id(nodes0, rc, cc, #[trigger] path@[k] as int),
            forall|k: int| 0 <= k < j ==> (#[trigger] path_out@[k]).tile_id == path@[k],
        decreases path@.len() - j,
    {
        path_out.push(PathfindingNode { tile_id: path[j] });
        j = j + 1;
    }
    proof {
        assert forall|k: int| 0 <= k < visited_out@.len() implies open_tile_id(
            grid@,
            (#[trigger] visited_out@[k]).tile_id as int,
        ) by {
            lemma_open_cell_is_open_tile(nodes0, grid@, rc, cc, visited_out@[k].tile_id as int);
        }
        assert forall|k: int| 0 <= k < path_out@.len() implies open_tile_id(
            grid@,
            (#[trigger] path_out@[k]).tile_id as int,
        ) by {
            lemma_open_cell_is_open_tile(nodes0, grid@, rc, cc, path_out@[k].tile_id as int);
        }
        if path_out@.len() > 0 && crate::grid::last_end_pos(grid@) is Some {
            let p = end_tile_pos.unwrap();
            crate::grid::lemma_last_end_is_end(grid@, (p.0 as int, p.1 as int));
            let i = choose|i: int|
                0 <= i < grid@.len() && crate::tile::tile_at_pos(
                    #[trigger] grid@[i],
                    p.0 as int,
                    p.1 as int,
                ) && grid@[i].tile_type == crate::tile::TileType::End;
            assert(crate::grid::node_reflects_tile(nodes0, grid@[i]));
            assert(path_out@[0].tile_id == path@[0]);
        }
        if path_out@.len() > 0 {
            let sp = crate::grid::start_pos(grid@, current_tile_id as int);
            assert(crate::tile::cell_covered(grid@, sp.0, sp.1));
            let i = choose|i: int|
                0 <= i < grid@.len() && crate::tile::tile_at_pos(#[trigger] grid@[i], sp.0, sp.1);
            assert(crate::grid::node_reflects_tile(nodes0, grid@[i]));
            assert(path_out@.last().tile_id == path@.last());
        }
        let sp = crate::grid::start_pos(grid@, current_tile_id as int);
        crate::grid::lemma_reflect_at(nodes0, grid@, rc, cc, sp.0, sp.1);
        assert((current_tile_pos.0 as int, current_tile_pos.1 as int) == sp);
        if open_at(grid@, sp.0, sp.1) {
            assert(visited_out@[0].tile_id == visited@[0]);
        }
        if open_at(grid@, sp.0, sp.1) && crate::grid::last_end_pos(grid@) == Some(sp) {
            let p = end_tile_pos.unwrap();
            assert(p.0 == current_tile_pos.0 && p.1 == current_tile_pos.1);
        }
        if path_out@.len() > 0 {
            let wrapg = algo.world_wrap_enabled;
            let gp = crate::grid::goal_pos_eff(grid@);
            let ps = choose|ps: Seq<(usize, usize)>|
                #[trigger] dfs_chain_ok(
                    nodes0,
                    wrapg,
                    rc,
                    cc,
                    (end_tile_pos.unwrap().0 as int, end_tile_pos.unwrap().1 as int),
                    (current_tile_pos.0 as int, current_tile_pos.1 as int),
                    ps,
                    path@.subrange(0, path@.len() as int),
                );
            assert(path@.subrange(0, path@.len() as int) == path@);
            let p = end_tile_pos.unwrap();
            crate::grid::lemma_last_end_is_end(grid@, (p.0 as int, p.1 as int));
            assert(gp == (p.0 as int, p.1 as int));
            assert forall|k: int|
                0 <= k < ps.len() implies ((#[trigger] ps[k]).0 < rc && ps[k].1 < cc && open_at(
                grid@,
                ps[k].0 as int,
                ps[k].1 as int,
            ) && tile_id_at(grid@, ps[k].0 as int, ps[k].1 as int) == path_out@[k].tile_id
                as int) by {
                crate::grid::lemma_reflect_at(
                    nodes0,
                    grid@,
                    rc,
                    cc,
                    ps[k].0 as int,
                    ps[k].1 as int,
                );
                assert(path_out@[k].tile_id == path@[k]);
            }
            assert(crate::grid::tile_chain_positions_ok(
                grid@,
                wrapg,
                rc,
                cc,
                gp,
                gp,
                ps,
                path_out@,
            ));
        }
    }
    (visited_out, path_out)
}

/// The recursive descent.  Appends expanded cell identities to
/// `visited` and, once the goal is found, the ids of the unwinding
/// frames to `path`; both carry only identities of non-wall cells.
#[verifier::loop_isolation(false)]
fn dfs(
    grid: &mut Vec<Vec<Node>>,
    current_tile_pos: (usize, usize),
    end_tile_pos: Option<(usize, usize)>,
    visited: &mut Vec<usize>,
    path: &mut Vec<usize>,
    algo: &AlgorithmInUse,
    rng: &mut rand::rngs::StdRng,
    row_count: usize,
    col_count: usize,
) -> (found: bool)
    requires
        dims_ok(row_count as int, col_count as int),
        grid_dims(old(grid)@, row_count as int, col_count as int),
        positions_ok(old(grid)@, row_count as int, col_count as int),
        walls_visited(old(grid)@, row_count as int, col_count as int),
        algo.direction_offset < 8,
        current_tile_pos.0 < row_count,
        current_tile_pos.1 < col_count,
        match end_tile_pos {
            Some(p) => p.0 < row_count && p.1 < col_count,
            None => true,
        },
    ensures
        grid_dims(final(grid)@, row_count as int, col_count as int),
        positions_ok(final(grid)@, row_count as int, col_count as int),
        walls_visited(final(grid)@, row_count as int, col_count as int),
        same_statics(old(grid)@, final(grid)@, row_count as int, col_count as int),
        forall|r: int, c: int|
            0 <= r < row_count && 0 <= c < col_count ==> ((#[trigger] node_at(
                old(grid)@,
                r,
                c,
            )).visited ==> node_at(final(grid)@, r, c).visited),
        final(visited)@.len() >= old(visited)@.len(),
        final(visited)@.subrange(0, old(visited)@.len() as int) == old(visited)@,
        forall|k: int|
            old(visited)@.len() <= k < final(visited)@.len() ==> open_cell_id(
                old(grid)@,
                row_count as int,
                col_count as int,
                #[trigger] final(visited)@[k] as int,
            ),
        final(path)@.len() >= old(path)@.len(),
        final(path)@.subrange(0, old(path)@.len() as int) == old(path)@,
        forall|k: int|
            old(path)@.len() <= k < final(path)@.len() ==> open_cell_id(
                old(grid)@,
                row_count as int,
                col_count as int,
                #[trigger] final(path)@[k] as int,
            ),
        !found ==> final(path)@ == old(path)@,
        end_tile_pos is None ==> !found,
        found ==> final(path)@.len() > old(path)@.len() && final(path)@[old(path)@.len() as int]
            == node_at(
            old(grid)@,
            end_tile_pos.unwrap().0 as int,
            end_tile_pos.unwrap().1 as int,
        ).tile_id,
        found ==> final(path)@.last() == node_at(
            old(grid)@,
            current_tile_pos.0 as int,
            current_tile_pos.1 as int,
        ).tile_id,
        ({
            let cn0 = node_at(old(grid)@, current_tile_pos.0 as int, current_tile_pos.1 as int);
            let vnew = final(visited)@;
            let vold = old(visited)@;
            &&& (!cn0.visited ==> vnew.len() > vold.len() && vnew[vold.len() as int]
                == cn0.tile_id && node_at(
                final(grid)@,
                current_tile_pos.0 as int,
                current_tile_pos.1 as int,
            ).visited)
            &&& (cn0.visited ==> vnew == vold && final(path)@ == old(path)@ && !found)
            &&& (end_tile_pos == Some(current_tile_pos) && !cn0.visited ==> found)
        }),
        found ==> exists|ps: Seq<(usize, usize)>|
            #[trigger] dfs_chain_ok(
                old(grid)@,
                algo.world_wrap_enabled,
                row_count as int,
                col_count as int,
                (end_tile_pos.unwrap().0 as int, end_tile_pos.unwrap().1 as int),
                (current_tile_pos.0 as int, current_tile_pos.1 as int),
                ps,
                final(path)@.subrange(old(path)@.len() as int, final(path)@.len() as int),
            ),
    decreases count_unvisited(old(grid)@),
{
    let ghost rc = row_count as int;
    let ghost cc = col_count as int;
    let ghost g0 = grid@;
    let ghost v0 = visited@;
    let ghost p0 = path@;

    let cn = grid[current_tile_pos.0][current_tile_pos.1];
    proof {
        assert(cn == node_at(grid@, current_tile_pos.0 as int, current_tile_pos.1 as int));
    }
    let current_row = cn.row;
    let current_col = cn.col;
    let current_tile_id = cn.tile_id;

    let is_end_tile = match end_tile_pos {
        Some(pos) => pos.0 == current_tile_pos.0 && pos.1 == current_tile_pos.1,
        None => false,
    };

    if !cn.visited {
        let mut marked = cn;
        marked.visited = true;
        let ghost prev_nodes = grid@;
        grid[current_tile_pos.0][current_tile_pos.1] = marked;
        proof {
            lemma_update_cell(
                prev_nodes,
                grid@,
                rc,
                cc,
                current_tile_pos.0 as int,
                current_tile_pos.1 as int,
                marked,
            );
            assert(!node_at(g0, current_tile_pos.0 as int, current_tile_pos.1 as int).is_wall);
            assert(open_cell_id(g0, rc, cc, current_tile_id as int));
            lemma_count_strict(g0, grid@, current_tile_pos.0 as int, current_tile_pos.1 as int);
        }
        visited.push(current_tile_id);
    } else {
        return false;
    }

    if is_end_tile {
        proof {
            let p = end_tile_pos.unwrap();
            assert(node_at(g0, p.0 as int, p.1 as int).tile_id == current_tile_id);
        }
        path.push(current_tile_id);
        proof {
            let seg = path@.subrange(p0.len() as int, path@.len() as int);
            assert(seg.len() == 1 && seg[0] == current_tile_id);
            let ps = seq![current_tile_pos];
            assert(ps.last() == current_tile_pos);
            assert(!node_at(g0, current_tile_pos.0 as int, current_tile_pos.1 as int).is_wall);
            assert(dfs_chain_ok(
                g0,
                algo.world_wrap_enabled,
                rc,
                cc,
                (end_tile_pos.unwrap().0 as int, end_tile_pos.unwrap().1 as int),
                (current_tile_pos.0 as int, current_tile_pos.1 as int),
                ps,
                seg,
            ));
        }
        return true;
    }

    let mut directions = dfs_rotated_directions(algo.direction_offset);
    if algo.random_direction {
        shuffle_directions(rng, &mut directions);
    }
    proof {
        assert forall|k: int| 0 <= k < directions@.len() implies dir_ok(
            #[trigger] directions@[k],
        ) by {}
    }

    let mut in_path = false;
    let mut d: usize = 0;
    while d < directions.len() && !in_path
        invariant
            grid_dims(grid@, rc, cc),
            positions_ok(grid@, rc, cc),
            walls_visited(grid@, rc, cc),
            same_statics(g0, grid@, rc, cc),
            forall|r: int, c: int|
                0 <= r < rc && 0 <= c < cc ==> ((#[trigger] node_at(g0, r, c)).visited ==> node_at(
                    grid@,
                    r,
                    c,
                ).visited),
            count_unvisited(grid@) < count_unvisited(g0),
            node_at(grid@, current_tile_pos.0 as int, current_tile_pos.1 as int).visited,
            visited@.len() > v0.len(),
            visited@[v0.len() as int] == current_tile_id,
            visited@.subrange(0, v0.len() as int) == v0,
            forall|k: int|
                v0.len() <= k < visited@.len() ==> open_cell_id(
                    g0,
                    rc,
                    cc,
                    #[trigger] visited@[k] as int,
                ),
            path@.len() >= p0.len(),
            path@.subrange(0, p0.len() as int) == p0,
            forall|k: int|
                p0.len() <= k < path@.len() ==> open_cell_id(g0, rc, cc, #[trigger] path@[k] as int),
            !in_path ==> path@ == p0,
            end_tile_pos is None ==> !in_path,
            in_path ==> path@.len() > p0.len() && path@[p0.len() as int] == node_at(
                g0,
                end_tile_pos.unwrap().0 as int,
                end_tile_pos.unwrap().1 as int,
            ).tile_id,
            in_path ==> path@.last() == node_at(
                g0,
                current_tile_pos.0 as int,
                current_tile_pos.1 as int,
            ).tile_id,
            in_path ==> exists|ps: Seq<(usize, usize)>|
                #[trigger] dfs_chain_ok(
                    g0,
                    algo.world_wrap_enabled,
                    rc,
                    cc,
                    (end_tile_pos.unwrap().0 as int, end_tile_pos.unwrap().1 as int),
                    (current_tile_pos.0 as int, current_tile_pos.1 as int),
                    ps,
                    path@.subrange(p0.len() as int, path@.len() as int),
                ),
            d <= directions@.len(),
        decreases directions@.len() - d + (if in_path {
            0int
        } else {
            1int
        }),
    {
        let (dr, dc) = directions[d];
        proof {
            assert(current_row == current_tile_pos.0 && current_col == current_tile_pos.1);
        }
        let maybe = handle_world_wrap_for_coords(
            algo,
            (current_row, current_col),
            (dr, dc),
            row_count,
            col_count,
        );
        if let Some((visit_row, visit_col)) = maybe {
        let ghost g_pre = grid@;
        let ghost v_pre = visited@;
        let ghost p_pre = path@;
        let sub_found = dfs(
            grid,
            (visit_row, visit_col),
            end_tile_pos,
            visited,
            path,
            algo,
            rng,
            row_count,
            col_count,
        );
        in_path = in_path || sub_found;
        proof {
            assert(same_statics(g0, grid@, rc, cc));
            if sub_found {
                let p = end_tile_pos.unwrap();
                assert(node_at(g_pre, p.0 as int, p.1 as int).tile_id == node_at(
                    g0,
                    p.0 as int,
                    p.1 as int,
                ).tile_id);
                assert(path@[p_pre.len() as int] == node_at(g0, p.0 as int, p.1 as int).tile_id);
            }
            assert forall|r: int, i: int|
                0 <= r < g_pre.len() && 0 <= i < g_pre[r]@.len() implies ((#[trigger] g_pre[r]@[i]).visited
                ==> grid@[r]@[i].visited) by {
                assert(node_at(g_pre, r, i) == g_pre[r]@[i]);
                assert(node_at(grid@, r, i) == grid@[r]@[i]);
            }
            lemma_count_mono(g_pre, grid@);
            assert(visited@.subrange(0, v0.len() as int) == v_pre.subrange(0, v0.len() as int));
            assert forall|k: int| v0.len() <= k < visited@.len() implies open_cell_id(
                g0,
                rc,
                cc,
                #[trigger] visited@[k] as int,
            ) by {
                if k < v_pre.len() {
                    assert(visited@[k] == visited@.subrange(0, v_pre.len() as int)[k]);
                    assert(visited@.subrange(0, v_pre.len() as int) == v_pre);
                } else {
                    lemma_open_cell_transfer(g0, g_pre, rc, cc, visited@[k] as int);
                }
            }
            assert(path@.subrange(0, p0.len() as int) == p_pre.subrange(0, p0.len() as int));
            assert forall|k: int| p0.len() <= k < path@.len() implies open_cell_id(
                g0,
                rc,
                cc,
                #[trigger] path@[k] as int,
            ) by {
                if k < p_pre.len() {
                    assert(path@[k] == path@.subrange(0, p_pre.len() as int)[k]);
                    assert(path@.subrange(0, p_pre.len() as int) == p_pre);
                } else {
                    lemma_open_cell_transfer(g0, g_pre, rc, cc, path@[k] as int);
                }
            }
        }
        if in_path {
            proof {
                assert(open_cell_id(g0, rc, cc, current_tile_id as int));
            }
            let ghost segc = path@.subrange(p0.len() as int, path@.len() as int);
            let ghost psc = choose|psc: Seq<(usize, usize)>|
                #[trigger] dfs_chain_ok(
                    g_pre,
                    algo.world_wrap_enabled,
                    rc,
                    cc,
                    (end_tile_pos.unwrap().0 as int, end_tile_pos.unwrap().1 as int),
                    (visit_row as int, visit_col as int),
                    psc,
                    segc,
                );
            path.push(current_tile_id);
            proof {
                assert(p_pre == p0);
                assert(dfs_chain_ok(
                    g_pre,
                    algo.world_wrap_enabled,
                    rc,
                    cc,
                    (end_tile_pos.unwrap().0 as int, end_tile_pos.unwrap().1 as int),
                    (visit_row as int, visit_col as int),
                    psc,
                    segc,
                ));
                let ps2 = psc.push((current_row, current_col));
                let seg2 = path@.subrange(p0.len() as int, path@.len() as int);
                assert(seg2.len() == segc.len() + 1);
                assert(seg2.last() == current_tile_id);
                assert forall|k: int|
                    0 <= k < ps2.len() implies ((#[trigger] ps2[k]).0 < rc && ps2[k].1 < cc
                    && !node_at(g0, ps2[k].0 as int, ps2[k].1 as int).is_wall && node_at(
                    g0,
                    ps2[k].0 as int,
                    ps2[k].1 as int,
                ).tile_id == seg2[k]) by {
                    if k < psc.len() {
                        assert(ps2[k] == psc[k]);
                        assert(seg2[k] == segc[k]);
                        assert(node_at(g0, psc[k].0 as int, psc[k].1 as int).is_wall == node_at(
                            g_pre,
                            psc[k].0 as int,
                            psc[k].1 as int,
                        ).is_wall);
                        assert(node_at(g0, psc[k].0 as int, psc[k].1 as int).tile_id == node_at(
                            g_pre,
                            psc[k].0 as int,
                            psc[k].1 as int,
                        ).tile_id);
                    } else {
                        assert(ps2[k] == (current_row, current_col));
                        assert(seg2[k] == current_tile_id);
                        assert(!node_at(
                            g0,
                            current_tile_pos.0 as int,
                            current_tile_pos.1 as int,
                        ).is_wall);
                    }
                }
                assert forall|k: int|
                    0 <= k < ps2.len() - 1 implies adj_step(
                    algo.world_wrap_enabled,
                    ((#[trigger] ps2[k + 1]).0 as int, ps2[k + 1].1 as int),
                    (ps2[k].0 as int, ps2[k].1 as int),
                    rc,
                    cc,
                ) by {
                    if k < psc.len() - 1 {
                        assert(ps2[k] == psc[k] && ps2[k + 1] == psc[k + 1]);
                    } else {
                        assert(ps2[k] == psc.last() && ps2[k + 1] == (current_row, current_col));
                        assert(king_delta(dr as int, dc as int));
                        assert(adj_step(
                            algo.world_wrap_enabled,
                            (current_row as int, current_col as int),
                            (visit_row as int, visit_col as int),
                            rc,
                            cc,
                        ));
                    }
                }
                assert(ps2[0] == psc[0]);
                assert(ps2.last() == (current_row, current_col));
                assert(dfs_chain_ok(
                    g0,
                    algo.world_wrap_enabled,
                    rc,
                    cc,
                    (end_tile_pos.unwrap().0 as int, end_tile_pos.unwrap().1 as int),
                    (current_tile_pos.0 as int, current_tile_pos.1 as int),
                    ps2,
                    seg2,
                ));
            }
        }
        }
        if !in_path {
            d = d + 1;
        }
    }

    in_path
}

} // verus!
