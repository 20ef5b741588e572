//! Grid snapshot adapter: converts the caller's flat collection of tile
//! descriptors into a dense row-major array of search nodes, marking
//! wall cells pre-visited, and locates the goal (`End`) tile and the
//! start tile.

use vstd::prelude::*;
use crate::node::Node;
use crate::policy::{adj_step, dims_ok};
use crate::tile::{Tile, TileType, tiles_wf, tile_at_pos, cell_covered, open_tile_id, known_tile_id};

verus! {

/// The node array has exactly `rc` rows of `cc` cells each.
pub open spec fn grid_dims(nodes: Seq<Vec<Node>>, rc: int, cc: int) -> bool {
    &&& nodes.len() == rc
    &&& forall|r: int| 0 <= r < rc ==> (#[trigger] nodes[r])@.len() == cc
}

/// The node stored at position (`r`, `c`).
pub open spec fn node_at(nodes: Seq<Vec<Node>>, r: int, c: int) -> Node {
    nodes[r]@[c]
}

/// The node at tile `t`'s position carries `t`'s identity, and is a
/// wall node exactly when `t` is a wall tile.
pub open spec fn node_reflects_tile(nodes: Seq<Vec<Node>>, t: Tile) -> bool {
    let n = node_at(nodes, t.row as int, t.col as int);
    &&& n.tile_id == t.id
    &&& n.row == t.row
    &&& n.col == t.col
    &&& (n.is_wall <==> t.tile_type == TileType::Wall)
}

/// Every tile of the snapshot is reflected by the node at its position.
pub open spec fn nodes_reflect(nodes: Seq<Vec<Node>>, tiles: Seq<Tile>) -> bool {
    forall|i: int| 0 <= i < tiles.len() ==> node_reflects_tile(nodes, #[trigger] tiles[i])
}

/// `id` is the identity of some non-wall cell of the node array.
pub open spec fn open_cell_id(nodes: Seq<Vec<Node>>, rc: int, cc: int, id: int) -> bool {
    exists|r: int, c: int|
        0 <= r < rc && 0 <= c < cc && (#[trigger] node_at(nodes, r, c)).tile_id == id && !node_at(
            nodes,
            r,
            c,
        ).is_wall
}

/// `id` is the identity of some cell of the node array.
pub open spec fn known_cell_id(nodes: Seq<Vec<Node>>, rc: int, cc: int, id: int) -> bool {
    exists|r: int, c: int|
        0 <= r < rc && 0 <= c < cc && (#[trigger] node_at(nodes, r, c)).tile_id == id
}

/// An identity read off a non-wall node of an array that reflects a
/// well-formed snapshot belongs to a non-wall tile of that snapshot.
pub proof fn lemma_open_cell_is_open_tile(
    nodes: Seq<Vec<Node>>,
    tiles: Seq<Tile>,
    rc: int,
    cc: int,
    id: int,
)
    requires
        tiles_wf(tiles, rc, cc),
        grid_dims(nodes, rc, cc),
        nodes_reflect(nodes, tiles),
        open_cell_id(nodes, rc, cc, id),
    ensures
        open_tile_id(tiles, id),
{
    let (r, c) = choose|r: int, c: int|
        0 <= r < rc && 0 <= c < cc && (#[trigger] node_at(nodes, r, c)).tile_id == id && !node_at(
            nodes,
            r,
            c,
        ).is_wall;
    assert(cell_covered(tiles, r, c));
    let i = choose|i: int| 0 <= i < tiles.len() && tile_at_pos(#[trigger] tiles[i], r, c);
    assert(node_reflects_tile(nodes, tiles[i]));
}

/// Like `lemma_open_cell_is_open_tile`, for identities of any cell.
pub proof fn lemma_known_cell_is_known_tile(
    nodes: Seq<Vec<Node>>,
    tiles: Seq<Tile>,
    rc: int,
    cc: int,
    id: int,
)
    requires
        tiles_wf(tiles, rc, cc),
        grid_dims(nodes, rc, cc),
        nodes_reflect(nodes, tiles),
        known_cell_id(nodes, rc, cc, id),
    ensures
        known_tile_id(tiles, id),
{
    let (r, c) = choose|r: int, c: int|
        0 <= r < rc && 0 <= c < cc && (#[trigger] node_at(nodes, r, c)).tile_id == id;
    assert(cell_covered(tiles, r, c));
    let i = choose|i: int| 0 <= i < tiles.len() && tile_at_pos(#[trigger] tiles[i], r, c);
    assert(node_reflects_tile(nodes, tiles[i]));
}

/// The node at a covered position carries the identity of the one tile
/// sitting there, and is a wall node exactly when that tile is a wall.
pub proof fn lemma_reflect_at(nodes: Seq<Vec<Node>>, tiles: Seq<Tile>, rc: int, cc: int, r: int, c: int)
    requires
        tiles_wf(tiles, rc, cc),
        grid_dims(nodes, rc, cc),
        nodes_reflect(nodes, tiles),
        0 <= r < rc,
        0 <= c < cc,
    ensures
        node_at(nodes, r, c).tile_id == crate::tile::tile_id_at(tiles, r, c),
        node_at(nodes, r, c).is_wall <==> !crate::tile::open_at(tiles, r, c),
{
    assert(cell_covered(tiles, r, c));
    let i = choose|i: int| 0 <= i < tiles.len() && tile_at_pos(#[trigger] tiles[i], r, c);
    assert(node_reflects_tile(nodes, tiles[i]));
    if node_at(nodes, r, c).is_wall {
        assert forall|j: int|
            0 <= j < tiles.len() && tile_at_pos(#[trigger] tiles[j], r, c) implies tiles[j].tile_type
            == TileType::Wall by {
            assert(tiles[j] == tiles[i]) by {
                if j != i {
                    assert(!(tiles[i].row == tiles[j].row && tiles[i].col == tiles[j].col));
                }
            }
        }
    } else {
        assert(crate::tile::open_at(tiles, r, c));
    }
}

/// Position of the goal: that of the last `End` tile of the snapshot,
/// if any.
pub open spec fn last_end_pos(tiles: Seq<Tile>) -> Option<(int, int)>
    decreases tiles.len(),
{
    if tiles.len() == 0 {
        None
    } else if tiles.last().tile_type == TileType::End {
        Some((tiles.last().row as int, tiles.last().col as int))
    } else {
        last_end_pos(tiles.drop_last())
    }
}

/// Position of the start: that of the last tile carrying `id`, the grid
/// origin when no tile does.
pub open spec fn start_pos(tiles: Seq<Tile>, id: int) -> (int, int)
    decreases tiles.len(),
{
    if tiles.len() == 0 {
        (0, 0)
    } else if tiles.last().id == id {
        (tiles.last().row as int, tiles.last().col as int)
    } else {
        start_pos(tiles.drop_last(), id)
    }
}

/// Position the searches aim at: that of the last `End` tile, the grid
/// origin when no `End` tile exists.
pub open spec fn goal_pos_eff(tiles: Seq<Tile>) -> (int, int) {
    match last_end_pos(tiles) {
        Some(p) => p,
        None => (0, 0),
    }
}

/// Every cell of the node array is a fresh, unexplored search state.
pub open spec fn nodes_fresh(nodes: Seq<Vec<Node>>, rc: int, cc: int) -> bool {
    forall|r: int, c: int|
        0 <= r < rc && 0 <= c < cc ==> {
            let n = #[trigger] node_at(nodes, r, c);
            &&& n.row == r
            &&& n.col == c
            &&& n.distance == usize::MAX
            &&& n.g_score == usize::MAX
            &&& (n.visited <==> n.is_wall)
            &&& n.previous_node is None
        }
}

/// The per-cell identities, positions and wall marks of `b` agree with
/// those of `a`: a search mutates only the dynamic state (distance,
/// score, visited flag, predecessor) of the array it was handed.
pub open spec fn same_statics(a: Seq<Vec<Node>>, b: Seq<Vec<Node>>, rc: int, cc: int) -> bool {
    forall|r: int, c: int|
        0 <= r < rc && 0 <= c < cc ==> {
            let y = #[trigger] node_at(b, r, c);
            let x = node_at(a, r, c);
            &&& y.tile_id == x.tile_id
            &&& y.row == x.row
            &&& y.col == x.col
            &&& y.is_wall == x.is_wall
        }
}

/// A frontier entry is a faithful copy of the static part of the cell
/// it points at.
pub open spec fn heap_elem_ok(nodes: Seq<Vec<Node>>, rc: int, cc: int, e: Node) -> bool {
    &&& e.row < rc
    &&& e.col < cc
    &&& e.tile_id == node_at(nodes, e.row as int, e.col as int).tile_id
    &&& e.is_wall == node_at(nodes, e.row as int, e.col as int).is_wall
}

/// Every frontier entry is a faithful copy.
pub open spec fn heap_ok(nodes: Seq<Vec<Node>>, rc: int, cc: int, heap: Seq<Node>) -> bool {
    forall|k: int| 0 <= k < heap.len() ==> heap_elem_ok(nodes, rc, cc, #[trigger] heap[k])
}

/// Predecessor pointers are in bounds and connect non-wall cells only,
/// so path reconstruction never reads a wall and never leaves the grid.
pub open spec fn prev_ok(nodes: Seq<Vec<Node>>, rc: int, cc: int) -> bool {
    forall|r: int, c: int|
        0 <= r < rc && 0 <= c < cc ==> match (#[trigger] node_at(nodes, r, c)).previous_node {
            Some(p) => p.0 < rc && p.1 < cc && !node_at(nodes, r, c).is_wall && !node_at(
                nodes,
                p.0 as int,
                p.1 as int,
            ).is_wall,
            None => true,
        }
}

/// Every id of `out` identifies a non-wall cell of `nodes`.
pub open spec fn out_ok(
    nodes: Seq<Vec<Node>>,
    rc: int,
    cc: int,
    out: Seq<crate::algorithms::PathfindingNode>,
) -> bool {
    forall|k: int|
        0 <= k < out.len() ==> open_cell_id(nodes, rc, cc, (#[trigger] out[k]).tile_id as int)
}

/// Every node records the position it is stored at.
pub open spec fn positions_ok(nodes: Seq<Vec<Node>>, rc: int, cc: int) -> bool {
    forall|r: int, c: int|
        0 <= r < rc && 0 <= c < cc ==> (#[trigger] node_at(nodes, r, c)).row == r && node_at(
            nodes,
            r,
            c,
        ).col == c
}

/// An open-cell identity carries over between arrays whose static parts
/// agree.
pub proof fn lemma_open_cell_transfer(
    a: Seq<Vec<Node>>,
    b: Seq<Vec<Node>>,
    rc: int,
    cc: int,
    id: int,
)
    requires
        same_statics(a, b, rc, cc),
        open_cell_id(b, rc, cc, id),
    ensures
        open_cell_id(a, rc, cc, id),
{
    let (r, c) = choose|r: int, c: int|
        0 <= r < rc && 0 <= c < cc && (#[trigger] node_at(b, r, c)).tile_id == id && !node_at(
            b,
            r,
            c,
        ).is_wall;
    assert(node_at(a, r, c).tile_id == id && !node_at(a, r, c).is_wall);
}

/// Every wall cell is marked visited, so it is never expanded.
pub open spec fn walls_visited(nodes: Seq<Vec<Node>>, rc: int, cc: int) -> bool {
    forall|r: int, c: int|
        0 <= r < rc && 0 <= c < cc ==> ((#[trigger] node_at(nodes, r, c)).is_wall ==> node_at(
            nodes,
            r,
            c,
        ).visited)
}

/// When a goal position was found, an `End` tile of the snapshot sits
/// there.
pub proof fn lemma_last_end_is_end(tiles: Seq<Tile>, p: (int, int))
    requires
        last_end_pos(tiles) == Some(p),
    ensures
        exists|i: int|
            0 <= i < tiles.len() && tile_at_pos(#[trigger] tiles[i], p.0, p.1) && tiles[i].tile_type
                == TileType::End,
    decreases tiles.len(),
{
    if tiles.len() > 0 {
        if tiles.last().tile_type == TileType::End {
            assert(tile_at_pos(tiles[tiles.len() - 1], p.0, p.1));
        } else {
            lemma_last_end_is_end(tiles.drop_last(), p);
            let i = choose|i: int|
                0 <= i < tiles.drop_last().len() && tile_at_pos(
                    #[trigger] tiles.drop_last()[i],
                    p.0,
                    p.1,
                ) && tiles.drop_last()[i].tile_type == TileType::End;
            assert(tiles.drop_last()[i] == tiles[i]);
            assert(tile_at_pos(tiles[i], p.0, p.1));
        }
    }
}

/// Writing one cell leaves every other cell, and the array's shape,
/// untouched.
pub proof fn lemma_update_cell(
    prev: Seq<Vec<Node>>,
    cur: Seq<Vec<Node>>,
    rc: int,
    cc: int,
    vr: int,
    vc: int,
    n: Node,
)
    requires
        grid_dims(prev, rc, cc),
        0 <= vr < rc,
        0 <= vc < cc,
        cur.len() == prev.len(),
        cur[vr]@ == prev[vr]@.update(vc, n),
        forall|r: int| 0 <= r < rc && r != vr ==> cur[r] == prev[r],
    ensures
        grid_dims(cur, rc, cc),
        node_at(cur, vr, vc) == n,
        forall|r: int, c: int|
            0 <= r < rc && 0 <= c < cc && !(r == vr && c == vc) ==> #[trigger] node_at(cur, r, c)
                == node_at(prev, r, c),
{
    assert forall|r: int| 0 <= r < rc implies (#[trigger] cur[r])@.len() == cc by {
        if r != vr {
            assert(cur[r] == prev[r]);
        }
    }
}

/// Every recorded predecessor is one king move away from its cell
/// under the configured topology: the pointer records the move that
/// set it.
pub open spec fn prev_adj(nodes: Seq<Vec<Node>>, wrap: bool, rc: int, cc: int) -> bool {
    forall|r: int, c: int|
        0 <= r < rc && 0 <= c < cc ==> match (#[trigger] node_at(nodes, r, c)).previous_node {
            Some(p) => adj_step(wrap, (p.0 as int, p.1 as int), (r, c), rc, cc),
            None => true,
        }
}

/// A walkable chain of positions: every position is an in-bounds
/// non-wall cell, and each next position is one king move away.
pub open spec fn chain_ok(
    nodes: Seq<Vec<Node>>,
    wrap: bool,
    rc: int,
    cc: int,
    ps: Seq<(int, int)>,
) -> bool {
    &&& ps.len() >= 1
    &&& forall|k: int|
        0 <= k < ps.len() ==> 0 <= (#[trigger] ps[k]).0 < rc && 0 <= ps[k].1 < cc && !node_at(
            nodes,
            ps[k].0,
            ps[k].1,
        ).is_wall
    &&& forall|k: int| 0 <= k < ps.len() - 1 ==> adj_step(wrap, #[trigger] ps[k], ps[k + 1], rc, cc)
}

/// Cell `to` can be reached from cell `from` by a wall-free chain of
/// king moves under the configured topology.
pub open spec fn cell_reachable(
    nodes: Seq<Vec<Node>>,
    wrap: bool,
    rc: int,
    cc: int,
    from: (int, int),
    to: (int, int),
) -> bool {
    exists|ps: Seq<(int, int)>|
        #[trigger] chain_ok(nodes, wrap, rc, cc, ps) && ps.first() == from && ps.last() == to
}

/// A non-wall cell reaches itself.
pub proof fn lemma_reach_refl(nodes: Seq<Vec<Node>>, wrap: bool, rc: int, cc: int, p: (int, int))
    requires
        0 <= p.0 < rc,
        0 <= p.1 < cc,
        !node_at(nodes, p.0, p.1).is_wall,
    ensures
        cell_reachable(nodes, wrap, rc, cc, p, p),
{
    let ps = seq![p];
    assert(chain_ok(nodes, wrap, rc, cc, ps));
    assert(ps.first() == p && ps.last() == p);
}

/// Reachability extends along one king move onto a non-wall cell.
pub proof fn lemma_reach_step(
    nodes: Seq<Vec<Node>>,
    wrap: bool,
    rc: int,
    cc: int,
    from: (int, int),
    a: (int, int),
    b: (int, int),
)
    requires
        cell_reachable(nodes, wrap, rc, cc, from, a),
        adj_step(wrap, a, b, rc, cc),
        0 <= b.0 < rc,
        0 <= b.1 < cc,
        !node_at(nodes, b.0, b.1).is_wall,
    ensures
        cell_reachable(nodes, wrap, rc, cc, from, b),
{
    let ps = choose|ps: Seq<(int, int)>|
        #[trigger] chain_ok(nodes, wrap, rc, cc, ps) && ps.first() == from && ps.last() == a;
    let ps2 = ps.push(b);
    assert forall|k: int|
        0 <= k < ps2.len() implies 0 <= (#[trigger] ps2[k]).0 < rc && 0 <= ps2[k].1 < cc
        && !node_at(nodes, ps2[k].0, ps2[k].1).is_wall by {
        if k < ps.len() {
            assert(ps2[k] == ps[k]);
        } else {
            assert(ps2[k] == b);
        }
    }
    assert forall|k: int| 0 <= k < ps2.len() - 1 implies adj_step(
        wrap,
        #[trigger] ps2[k],
        ps2[k + 1],
        rc,
        cc,
    ) by {
        if k < ps.len() - 1 {
            assert(ps2[k] == ps[k] && ps2[k + 1] == ps[k + 1]);
        } else {
            assert(ps2[k] == ps.last() && ps2[k + 1] == b);
        }
    }
    assert(chain_ok(nodes, wrap, rc, cc, ps2));
    assert(ps2.first() == from && ps2.last() == b);
}

/// Position chain behind a returned path: entry `k` names the cell at
/// `ps[k]`; the head sits at the goal `ep`; consecutive entries are one
/// king move apart, each toward its predecessor; the start position
/// `sp` never appears when it is not the goal.
pub open spec fn chain_positions_ok(
    nodes: Seq<Vec<Node>>,
    wrap: bool,
    rc: int,
    cc: int,
    sp: (int, int),
    ep: (int, int),
    ps: Seq<(usize, usize)>,
    out: Seq<crate::algorithms::PathfindingNode>,
) -> bool {
    &&& ps.len() == out.len()
    &&& (out.len() > 0 ==> (ps[0].0 as int, ps[0].1 as int) == ep)
    &&& forall|k: int|
        0 <= k < ps.len() ==> ((#[trigger] ps[k]).0 < rc && ps[k].1 < cc && !node_at(
            nodes,
            ps[k].0 as int,
            ps[k].1 as int,
        ).is_wall && node_at(nodes, ps[k].0 as int, ps[k].1 as int).tile_id == out[k].tile_id)
    &&& forall|k: int|
        0 <= k < ps.len() - 1 ==> adj_step(
            wrap,
            ((#[trigger] ps[k + 1]).0 as int, ps[k + 1].1 as int),
            (ps[k].0 as int, ps[k].1 as int),
            rc,
            cc,
        )
    &&& (sp != ep ==> forall|k: int|
        0 <= k < ps.len() ==> ((#[trigger] ps[k]).0 as int, ps[k].1 as int) != sp)
}

/// Some position chain stands behind `out`: its entries name non-wall
/// cells, open with the goal, step by king moves, and exclude the
/// start.
pub open spec fn node_path_chain(
    nodes: Seq<Vec<Node>>,
    wrap: bool,
    rc: int,
    cc: int,
    sp: (int, int),
    ep: (int, int),
    out: Seq<crate::algorithms::PathfindingNode>,
) -> bool {
    exists|ps: Seq<(usize, usize)>|
        #[trigger] chain_positions_ok(nodes, wrap, rc, cc, sp, ep, ps, out)
}

/// Like `chain_positions_ok`, additionally following the recorded
/// predecessor pointers: each entry's predecessor is the next entry,
/// and every entry carries one.
pub open spec fn recon_chain_ok(
    nodes: Seq<Vec<Node>>,
    wrap: bool,
    rc: int,
    cc: int,
    sp: (int, int),
    ep: (int, int),
    ps: Seq<(usize, usize)>,
    out: Seq<crate::algorithms::PathfindingNode>,
) -> bool {
    &&& chain_positions_ok(nodes, wrap, rc, cc, sp, ep, ps, out)
    &&& forall|k: int|
        0 <= k < ps.len() ==> (#[trigger] node_at(
            nodes,
            ps[k].0 as int,
            ps[k].1 as int,
        )).previous_node is Some
    &&& forall|k: int|
        0 <= k < ps.len() - 1 ==> node_at(
            nodes,
            (#[trigger] ps[k]).0 as int,
            ps[k].1 as int,
        ).previous_node == Some(ps[k + 1])
}

/// Every id of `out` identifies a non-wall cell other than the one at
/// position `away`.
pub open spec fn out_ok_away(
    nodes: Seq<Vec<Node>>,
    rc: int,
    cc: int,
    away: (int, int),
    out: Seq<crate::algorithms::PathfindingNode>,
) -> bool {
    forall|k: int|
        0 <= k < out.len() ==> exists|r: int, c: int|
            0 <= r < rc && 0 <= c < cc && !(r == away.0 && c == away.1) && (#[trigger] node_at(
                nodes,
                r,
                c,
            )).tile_id == (#[trigger] out[k]).tile_id && !node_at(nodes, r, c).is_wall
}

/// Two distinct cells of an array reflecting a well-formed snapshot
/// carry distinct identities.
pub proof fn lemma_distinct_cells_distinct_ids(
    nodes: Seq<Vec<Node>>,
    tiles: Seq<Tile>,
    rc: int,
    cc: int,
    a: (int, int),
    b: (int, int),
)
    requires
        tiles_wf(tiles, rc, cc),
        grid_dims(nodes, rc, cc),
        nodes_reflect(nodes, tiles),
        0 <= a.0 < rc,
        0 <= a.1 < cc,
        0 <= b.0 < rc,
        0 <= b.1 < cc,
        a != b,
    ensures
        node_at(nodes, a.0, a.1).tile_id != node_at(nodes, b.0, b.1).tile_id,
{
    assert(cell_covered(tiles, a.0, a.1));
    assert(cell_covered(tiles, b.0, b.1));
    let i = choose|i: int| 0 <= i < tiles.len() && tile_at_pos(#[trigger] tiles[i], a.0, a.1);
    let j = choose|j: int| 0 <= j < tiles.len() && tile_at_pos(#[trigger] tiles[j], b.0, b.1);
    assert(node_reflects_tile(nodes, tiles[i]));
    assert(node_reflects_tile(nodes, tiles[j]));
    assert(i != j);
}

/// Writing one cell whose new predecessor pointer (if any) records an
/// adjacent move from a reachable cell keeps the predecessor
/// invariants: adjacency of every pointer, and reachability of every
/// cell that carries one.
pub proof fn lemma_update_keeps_prev_invs(
    nodes0: Seq<Vec<Node>>,
    prev: Seq<Vec<Node>>,
    cur: Seq<Vec<Node>>,
    wrap: bool,
    rc: int,
    cc: int,
    spg: (int, int),
    vr: int,
    vc: int,
)
    requires
        0 <= vr < rc,
        0 <= vc < cc,
        forall|r: int, c: int|
            0 <= r < rc && 0 <= c < cc && !(r == vr && c == vc) ==> #[trigger] node_at(cur, r, c)
                == node_at(prev, r, c),
        prev_adj(prev, wrap, rc, cc),
        forall|r: int, c: int|
            0 <= r < rc && 0 <= c < cc && (#[trigger] node_at(prev, r, c)).previous_node is Some
                ==> cell_reachable(nodes0, wrap, rc, cc, spg, (r, c)),
        match node_at(cur, vr, vc).previous_node {
            Some(p) => adj_step(wrap, (p.0 as int, p.1 as int), (vr, vc), rc, cc)
                && cell_reachable(nodes0, wrap, rc, cc, spg, (vr, vc)),
            None => true,
        },
    ensures
        prev_adj(cur, wrap, rc, cc),
        forall|r: int, c: int|
            0 <= r < rc && 0 <= c < cc && (#[trigger] node_at(cur, r, c)).previous_node is Some
                ==> cell_reachable(nodes0, wrap, rc, cc, spg, (r, c)),
{
    assert forall|r: int, c: int| 0 <= r < rc && 0 <= c < cc implies match (#[trigger] node_at(
        cur,
        r,
        c,
    )).previous_node {
        Some(p) => adj_step(wrap, (p.0 as int, p.1 as int), (r, c), rc, cc),
        None => true,
    } by {
        if !(r == vr && c == vc) {
            assert(node_at(cur, r, c) == node_at(prev, r, c));
        }
    }
    assert forall|r: int, c: int|
        0 <= r < rc && 0 <= c < cc && (#[trigger] node_at(cur, r, c)).previous_node is Some
        implies cell_reachable(nodes0, wrap, rc, cc, spg, (r, c)) by {
        if !(r == vr && c == vc) {
            assert(node_at(cur, r, c) == node_at(prev, r, c));
        }
    }
}

/// Like `chain_ok`, stated over the tile snapshot.
pub open spec fn tile_chain_ok(
    tiles: Seq<Tile>,
    wrap: bool,
    rc: int,
    cc: int,
    ps: Seq<(int, int)>,
) -> bool {
    &&& ps.len() >= 1
    &&& forall|k: int|
        0 <= k < ps.len() ==> 0 <= (#[trigger] ps[k]).0 < rc && 0 <= ps[k].1 < cc
            && crate::tile::open_at(tiles, ps[k].0, ps[k].1)
    &&& forall|k: int| 0 <= k < ps.len() - 1 ==> adj_step(wrap, #[trigger] ps[k], ps[k + 1], rc, cc)
}

/// The tile at `to` can be reached from the tile at `from` by a
/// wall-free chain of king moves under the configured topology.
pub open spec fn tile_reachable(
    tiles: Seq<Tile>,
    wrap: bool,
    rc: int,
    cc: int,
    from: (int, int),
    to: (int, int),
) -> bool {
    exists|ps: Seq<(int, int)>|
        #[trigger] tile_chain_ok(tiles, wrap, rc, cc, ps) && ps.first() == from && ps.last() == to
}

/// Like `chain_positions_ok`, stated over the tile snapshot.
pub open spec fn tile_chain_positions_ok(
    tiles: Seq<Tile>,
    wrap: bool,
    rc: int,
    cc: int,
    sp: (int, int),
    ep: (int, int),
    ps: Seq<(usize, usize)>,
    out: Seq<crate::algorithms::PathfindingNode>,
) -> bool {
    &&& ps.len() == out.len()
    &&& (out.len() > 0 ==> (ps[0].0 as int, ps[0].1 as int) == ep)
    &&& forall|k: int|
        0 <= k < ps.len() ==> ((#[trigger] ps[k]).0 < rc && ps[k].1 < cc && crate::tile::open_at(
            tiles,
            ps[k].0 as int,
            ps[k].1 as int,
        ) && crate::tile::tile_id_at(tiles, ps[k].0 as int, ps[k].1 as int) == out[k].tile_id as int)
    &&& forall|k: int|
        0 <= k < ps.len() - 1 ==> adj_step(
            wrap,
            ((#[trigger] ps[k + 1]).0 as int, ps[k + 1].1 as int),
            (ps[k].0 as int, ps[k].1 as int),
            rc,
            cc,
        )
    &&& (sp != ep ==> forall|k: int|
        0 <= k < ps.len() ==> ((#[trigger] ps[k]).0 as int, ps[k].1 as int) != sp)
}

/// Some position chain over the snapshot stands behind `out`.
pub open spec fn tile_path_chain(
    tiles: Seq<Tile>,
    wrap: bool,
    rc: int,
    cc: int,
    sp: (int, int),
    ep: (int, int),
    out: Seq<crate::algorithms::PathfindingNode>,
) -> bool {
    exists|ps: Seq<(usize, usize)>|
        #[trigger] tile_chain_positions_ok(tiles, wrap, rc, cc, sp, ep, ps, out)
}

/// A reachability witness over the node array is one over the snapshot
/// it reflects.
pub proof fn lemma_cell_reachable_to_tiles(
    nodes: Seq<Vec<Node>>,
    tiles: Seq<Tile>,
    wrap: bool,
    rc: int,
    cc: int,
    from: (int, int),
    to: (int, int),
)
    requires
        tiles_wf(tiles, rc, cc),
        grid_dims(nodes, rc, cc),
        nodes_reflect(nodes, tiles),
        cell_reachable(nodes, wrap, rc, cc, from, to),
    ensures
        tile_reachable(tiles, wrap, rc, cc, from, to),
{
    let ps = choose|ps: Seq<(int, int)>|
        #[trigger] chain_ok(nodes, wrap, rc, cc, ps) && ps.first() == from && ps.last() == to;
    assert forall|k: int|
        0 <= k < ps.len() implies 0 <= (#[trigger] ps[k]).0 < rc && 0 <= ps[k].1 < cc
        && crate::tile::open_at(tiles, ps[k].0, ps[k].1) by {
        lemma_reflect_at(nodes, tiles, rc, cc, ps[k].0, ps[k].1);
    }
    assert(tile_chain_ok(tiles, wrap, rc, cc, ps));
}

/// A position chain over the node array carries over to the snapshot
/// it reflects.
pub proof fn lemma_path_chain_to_tiles(
    nodes: Seq<Vec<Node>>,
    tiles: Seq<Tile>,
    wrap: bool,
    rc: int,
    cc: int,
    sp: (int, int),
    ep: (int, int),
    out: Seq<crate::algorithms::PathfindingNode>,
)
    requires
        tiles_wf(tiles, rc, cc),
        grid_dims(nodes, rc, cc),
        nodes_reflect(nodes, tiles),
        node_path_chain(nodes, wrap, rc, cc, sp, ep, out),
    ensures
        tile_path_chain(tiles, wrap, rc, cc, sp, ep, out),
{
    let ps = choose|ps: Seq<(usize, usize)>|
        #[trigger] chain_positions_ok(nodes, wrap, rc, cc, sp, ep, ps, out);
    assert forall|k: int|
        0 <= k < ps.len() implies ((#[trigger] ps[k]).0 < rc && ps[k].1 < cc
        && crate::tile::open_at(tiles, ps[k].0 as int, ps[k].1 as int) && crate::tile::tile_id_at(
            tiles,
            ps[k].0 as int,
            ps[k].1 as int,
        ) == out[k].tile_id as int) by {
        lemma_reflect_at(nodes, tiles, rc, cc, ps[k].0 as int, ps[k].1 as int);
    }
    assert(tile_chain_positions_ok(tiles, wrap, rc, cc, sp, ep, ps, out));
}

/// Walks predecessor pointers back from the goal cell, collecting cell
/// identities, until the start cell or a cell without a predecessor is
/// reached.  When no cell carries a predecessor pointer the path is
/// empty; a non-empty path opens with the goal cell's identity.
#[verifier::loop_isolation(false)]
pub(crate) fn reconstruct_path(
    nodes: &Vec<Vec<Node>>,
    end_pos: (usize, usize),
    start_cell: (usize, usize),
    wrap: bool,
    row_count: usize,
    col_count: usize,
) -> (path: Vec<crate::algorithms::PathfindingNode>)
    requires
        dims_ok(row_count as int, col_count as int),
        grid_dims(nodes@, row_count as int, col_count as int),
        prev_ok(nodes@, row_count as int, col_count as int),
        prev_adj(nodes@, wrap, row_count as int, col_count as int),
        end_pos.0 < row_count,
        end_pos.1 < col_count,
    ensures
        out_ok(nodes@, row_count as int, col_count as int, path@),
        path@.len() > 0 ==> path@[0].tile_id == node_at(
            nodes@,
            end_pos.0 as int,
            end_pos.1 as int,
        ).tile_id,
        (forall|r: int, c: int|
            0 <= r < row_count && 0 <= c < col_count ==> (#[trigger] node_at(
                nodes@,
                r,
                c,
            )).previous_node is None) ==> path@.len() == 0,
        node_at(nodes@, end_pos.0 as int, end_pos.1 as int).previous_node is None ==> path@.len()
            == 0,
        exists|ps: Seq<(usize, usize)>|
            #[trigger] recon_chain_ok(
                nodes@,
                wrap,
                row_count as int,
                col_count as int,
                (start_cell.0 as int, start_cell.1 as int),
                (end_pos.0 as int, end_pos.1 as int),
                ps,
                path@,
            ),
{
    let ghost rc = row_count as int;
    let ghost cc = col_count as int;
    let ghost spg: (int, int) = (start_cell.0 as int, start_cell.1 as int);
    let ghost epg: (int, int) = (end_pos.0 as int, end_pos.1 as int);
    let mut path: Vec<crate::algorithms::PathfindingNode> = Vec::new();
    let ghost mut ps: Seq<(usize, usize)> = Seq::empty();
    let ghost mut hp: (usize, usize) = end_pos;
    let mut head = nodes[end_pos.0][end_pos.1];
    proof {
        assert(head == node_at(nodes@, end_pos.0 as int, end_pos.1 as int));
        assert((row_count as int) * (col_count as int) <= 0xFFFF * 0xFFFF) by (nonlinear_arith)
            requires
                0 <= row_count as int <= 0xFFFF,
                0 <= col_count as int <= 0xFFFF,
        ;
    }
    let n_cells: u64 = (row_count as u64) * (col_count as u64);
    let bound: u64 = n_cells + 1;
    let mut steps: u64 = 0;
    let ghost end_node_id = node_at(nodes@, end_pos.0 as int, end_pos.1 as int).tile_id;
    let ghost no_prevs = forall|r: int, c: int|
        0 <= r < rc && 0 <= c < cc ==> (#[trigger] node_at(nodes@, r, c)).previous_node is None;
    let mut done: bool = false;
    while !done
        invariant
            steps <= bound,
            out_ok(nodes@, rc, cc, path@),
            hp.0 < row_count && hp.1 < col_count,
            head == node_at(nodes@, hp.0 as int, hp.1 as int),
            ps.len() == path@.len(),
            path@.len() == 0 ==> hp == end_pos,
            path@.len() > 0 ==> path@[0].tile_id == end_node_id,
            path@.len() > 0 ==> (ps[0].0 as int, ps[0].1 as int) == epg,
            !done && spg != epg ==> (hp.0 as int, hp.1 as int) != spg,
            forall|k: int|
                0 <= k < ps.len() ==> ((#[trigger] ps[k]).0 < rc && ps[k].1 < cc && !node_at(
                    nodes@,
                    ps[k].0 as int,
                    ps[k].1 as int,
                ).is_wall && node_at(nodes@, ps[k].0 as int, ps[k].1 as int).tile_id
                    == path@[k].tile_id && node_at(
                    nodes@,
                    ps[k].0 as int,
                    ps[k].1 as int,
                ).previous_node is Some),
            forall|k: int|
                0 <= k < ps.len() - 1 ==> node_at(
                    nodes@,
                    (#[trigger] ps[k]).0 as int,
                    ps[k].1 as int,
                ).previous_node == Some(ps[k + 1]),
            forall|k: int|
                0 <= k < ps.len() - 1 ==> adj_step(
                    wrap,
                    ((#[trigger] ps[k + 1]).0 as int, ps[k + 1].1 as int),
                    (ps[k].0 as int, ps[k].1 as int),
                    rc,
                    cc,
                ),
            ps.len() > 0 ==> node_at(
                nodes@,
                ps.last().0 as int,
                ps.last().1 as int,
            ).previous_node == Some(hp) && adj_step(
                wrap,
                (hp.0 as int, hp.1 as int),
                (ps.last().0 as int, ps.last().1 as int),
                rc,
                cc,
            ),
            spg != epg ==> forall|k: int|
                0 <= k < ps.len() ==> ((#[trigger] ps[k]).0 as int, ps[k].1 as int) != spg,
            path@.len() > 0 ==> node_at(
                nodes@,
                end_pos.0 as int,
                end_pos.1 as int,
            ).previous_node is Some,
            no_prevs ==> path@.len() == 0,
        decreases bound - steps + (if done {
            0int
        } else {
            1int
        }),
    {
        if steps >= bound {
            done = true;
        } else {
            steps = steps + 1;
            match head.previous_node {
                None => {
                    done = true;
                },
                Some((row, col)) => {
                    proof {
                        assert(!node_at(nodes@, hp.0 as int, hp.1 as int).is_wall);
                        assert(open_cell_id(nodes@, rc, cc, head.tile_id as int));
                        assert(adj_step(
                            wrap,
                            (row as int, col as int),
                            (hp.0 as int, hp.1 as int),
                            rc,
                            cc,
                        ));
                    }
                    path.push(crate::algorithms::PathfindingNode { tile_id: head.tile_id });
                    proof {
                        ps = ps.push(hp);
                    }
                    head = nodes[row][col];
                    proof {
                        hp = (row, col);
                    }
                    if row == start_cell.0 && col == start_cell.1 {
                        done = true;
                    }
                },
            }
        }
    }
    proof {
        assert(chain_positions_ok(nodes@, wrap, rc, cc, spg, epg, ps, path@));
        assert(recon_chain_ok(nodes@, wrap, rc, cc, spg, epg, ps, path@));
    }
    path
}

/// Builds the dense `row_count` x `col_count` node array from the
/// snapshot, marking wall cells pre-visited so they are never expanded,
/// and returns it together with the goal position (if an `End` tile
/// exists) and the start position (the tile carrying
/// `current_tile_id`, the origin if none does).
pub fn build_nodes(
    tiles: &Vec<Tile>,
    row_count: usize,
    col_count: usize,
    current_tile_id: usize,
) -> (res: (Vec<Vec<Node>>, Option<(usize, usize)>, (usize, usize)))
    requires
        dims_ok(row_count as int, col_count as int),
        tiles_wf(tiles@, row_count as int, col_count as int),
    ensures
        grid_dims(res.0@, row_count as int, col_count as int),
        nodes_reflect(res.0@, tiles@),
        nodes_fresh(res.0@, row_count as int, col_count as int),
        match res.1 {
            Some(p) => last_end_pos(tiles@) == Some((p.0 as int, p.1 as int)) && p.0 < row_count
                && p.1 < col_count,
            None => last_end_pos(tiles@) is None,
        },
        (res.2.0 as int, res.2.1 as int) == start_pos(tiles@, current_tile_id as int),
        res.2.0 < row_count && res.2.1 < col_count,
{
    let mut nodes: Vec<Vec<Node>> = Vec::new();
    let mut r: usize = 0;
    while r < row_count
        invariant
            r <= row_count,
            nodes@.len() == r,
            forall|k: int| 0 <= k < r ==> (#[trigger] nodes@[k])@.len() == col_count,
            forall|k: int, c: int|
                0 <= k < r && 0 <= c < col_count ==> {
                    let n = #[trigger] node_at(nodes@, k, c);
                    &&& n.tile_id == 0
                    &&& n.row == 0
                    &&& n.col == 0
                    &&& !n.is_wall
                    &&& n.distance == usize::MAX
                    &&& n.g_score == usize::MAX
                    &&& !n.visited
                    &&& n.previous_node is None
                },
        decreases row_count - r,
    {
        let mut row: Vec<Node> = Vec::new();
        let mut c: usize = 0;
        while c < col_count
            invariant
                c <= col_count,
                row@.len() == c,
                forall|j: int|
                    0 <= j < c ==> {
                        let n = #[trigger] row@[j];
                        &&& n.tile_id == 0
                        &&& n.row == 0
                        &&& n.col == 0
                        &&& !n.is_wall
                        &&& n.distance == usize::MAX
                        &&& n.g_score == usize::MAX
                        &&& !n.visited
                        &&& n.previous_node is None
                    },
            decreases col_count - c,
        {
            row.push(Node::default());
            c = c + 1;
        }
        let ghost prev = nodes@;
        nodes.push(row);
        proof {
            assert forall|k: int, c2: int|
                0 <= k < prev.len() && 0 <= c2 < col_count implies #[trigger] node_at(
                nodes@,
                k,
                c2,
            ) == node_at(prev, k, c2) by {
                assert(nodes@[k] == prev[k]);
            }
            assert forall|c2: int| 0 <= c2 < col_count implies #[trigger] node_at(
                nodes@,
                prev.len() as int,
                c2,
            ) == row@[c2] by {}
        }
        r = r + 1;
    }

    let mut end_tile_pos: Option<(usize, usize)> = None;
    let mut current_tile_pos: (usize, usize) = (0, 0);
    let mut i: usize = 0;
    while i < tiles.len()
        invariant
            i <= tiles@.len(),
            dims_ok(row_count as int, col_count as int),
            tiles_wf(tiles@, row_count as int, col_count as int),
            grid_dims(nodes@, row_count as int, col_count as int),
            forall|r2: int, c2: int|
                0 <= r2 < row_count && 0 <= c2 < col_count ==> {
                    let n = #[trigger] node_at(nodes@, r2, c2);
                    &&& n.distance == usize::MAX
                    &&& n.g_score == usize::MAX
                    &&& (n.visited <==> n.is_wall)
                    &&& n.previous_node is None
                },
            forall|j: int| 0 <= j < i ==> node_reflects_tile(nodes@, #[trigger] tiles@[j]),
            forall|r2: int, c2: int|
                0 <= r2 < row_count && 0 <= c2 < col_count && !(exists|j: int|
                    0 <= j < i && tile_at_pos(#[trigger] tiles@[j], r2, c2)) ==> {
                    let n = #[trigger] node_at(nodes@, r2, c2);
                    !n.is_wall
                },
            match end_tile_pos {
                Some(p) => last_end_pos(tiles@.subrange(0, i as int)) == Some(
                    (p.0 as int, p.1 as int),
                ) && p.0 < row_count && p.1 < col_count,
                None => last_end_pos(tiles@.subrange(0, i as int)) is None,
            },
            (current_tile_pos.0 as int, current_tile_pos.1 as int) == start_pos(
                tiles@.subrange(0, i as int),
                current_tile_id as int,
            ),
            current_tile_pos.0 < row_count && current_tile_pos.1 < col_count,
        decreases tiles@.len() - i,
    {
        let t = tiles[i];
        proof {
            assert(tiles@.subrange(0, i + 1).drop_last() == tiles@.subrange(0, i as int));
            assert(tiles@.subrange(0, i + 1).last() == tiles@[i as int]);
        }
        if t.tile_type == TileType::End {
            end_tile_pos = Some((t.row, t.col));
        }
        if t.id == current_tile_id {
            current_tile_pos = (t.row, t.col);
        }
        let mut n = nodes[t.row][t.col];
        n.from_tile(&t);
        if t.tile_type == TileType::Wall {
            n.visited = true;
            n.is_wall = true;
        }
        let ghost prev = nodes@;
        nodes[t.row][t.col] = n;
        proof {
            assert forall|r2: int, c2: int|
                0 <= r2 < row_count && 0 <= c2 < col_count && !(r2 == t.row && c2
                    == t.col) implies #[trigger] node_at(nodes@, r2, c2) == node_at(
                prev,
                r2,
                c2,
            ) by {
                if r2 == t.row {
                    assert(nodes@[r2]@ == prev[r2]@.update(t.col as int, n));
                } else {
                    assert(nodes@[r2] == prev[r2]);
                }
            }
            assert(node_at(nodes@, t.row as int, t.col as int) == n);
        }
        i = i + 1;
    }
    proof {
        assert(tiles@.subrange(0, tiles@.len() as int) == tiles@);
        assert forall|r2: int, c2: int|
            0 <= r2 < row_count && 0 <= c2 < col_count implies {
            let n = #[trigger] node_at(nodes@, r2, c2);
            n.row == r2 && n.col == c2
        } by {
            assert(cell_covered(tiles@, r2, c2));
            let j = choose|j: int| 0 <= j < tiles@.len() && tile_at_pos(#[trigger] tiles@[j], r2, c2);
            assert(node_reflects_tile(nodes@, tiles@[j]));
        }
    }
    (nodes, end_tile_pos, current_tile_pos)
}

} // verus!
