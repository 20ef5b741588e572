//! Maze generation state: one node per grid cell, over the full grid.
//! Even-indexed cells ("rooms") are the vertices of the half-resolution
//! lattice; odd rows and columns are the wall cells between them.

use vstd::prelude::*;
use crate::policy::dims_ok;
use crate::terrain::{BuildType, TerrainAction, TerrainNode};
use crate::tile::{cell_covered, tile_at_pos, tile_id_at, tiles_wf, Tile};

verus! {

/// One cell's maze state: untouched, on the current random walk, or
/// part of the committed spanning tree.
#[derive(Clone, Copy, PartialEq, Eq, Structural, Debug)]
pub enum NodeState {
    Path,
    Current,
    Unvisited,
}

/// Maze-generation state attached to one grid cell.
#[derive(Clone, Copy, PartialEq, Eq, Structural, Debug)]
pub struct Node {
    pub tile_id: usize,
    pub row: usize,
    pub col: usize,
    pub state: NodeState,
}

impl Default for Node {
    /// A fresh untouched cell.
    fn default() -> (n: Node)
        ensures
            n.tile_id == 0,
            n.row == 0,
            n.col == 0,
            n.state == NodeState::Unvisited,
    {
        Node { tile_id: 0, row: 0, col: 0, state: NodeState::Unvisited }
    }
}

impl Node {
    /// Adopts the identity and position of `tile`, leaving the maze
    /// state untouched.
    pub fn from_tile(&mut self, tile: &Tile)
        ensures
            final(self).tile_id == tile.id,
            final(self).row == tile.row,
            final(self).col == tile.col,
            final(self).state == old(self).state,
    {
        self.tile_id = tile.id;
        self.row = tile.row;
        self.col = tile.col;
    }
}

/// The maze array has exactly `rc` rows of `cc` cells each.
pub open spec fn mgrid_dims(nodes: Seq<Vec<Node>>, rc: int, cc: int) -> bool {
    &&& nodes.len() == rc
    &&& forall|r: int| 0 <= r < rc ==> (#[trigger] nodes[r])@.len() == cc
}

/// The maze node stored at position (`r`, `c`).
pub open spec fn mnode_at(nodes: Seq<Vec<Node>>, r: int, c: int) -> Node {
    nodes[r]@[c]
}

/// Identities and positions of `b` agree with those of `a`: the walk
/// and the commit touch only the `state` field.
pub open spec fn m_statics(a: Seq<Vec<Node>>, b: Seq<Vec<Node>>, rc: int, cc: int) -> bool {
    forall|r: int, c: int|
        0 <= r < rc && 0 <= c < cc ==> {
            let y = #[trigger] mnode_at(b, r, c);
            let x = mnode_at(a, r, c);
            &&& y.tile_id == x.tile_id
            &&& y.row == x.row
            &&& y.col == x.col
        }
}

/// Every maze node records the position it is stored at.
pub open spec fn m_positions_ok(nodes: Seq<Vec<Node>>, rc: int, cc: int) -> bool {
    forall|r: int, c: int|
        0 <= r < rc && 0 <= c < cc ==> (#[trigger] mnode_at(nodes, r, c)).row == r && mnode_at(
            nodes,
            r,
            c,
        ).col == c
}

/// The maze node at tile `t`'s position carries `t`'s identity.
pub open spec fn m_reflects(nodes: Seq<Vec<Node>>, tiles: Seq<Tile>) -> bool {
    forall|i: int|
        0 <= i < tiles.len() ==> mnode_at(
            nodes,
            (#[trigger] tiles[i]).row as int,
            tiles[i].col as int,
        ).tile_id == tiles[i].id
}

/// `id` is the identity of some cell of the maze array.
pub open spec fn m_known_id(nodes: Seq<Vec<Node>>, rc: int, cc: int, id: int) -> bool {
    exists|r: int, c: int|
        0 <= r < rc && 0 <= c < cc && (#[trigger] mnode_at(nodes, r, c)).tile_id == id
}

/// Position (`r`, `c`) is a room cell of the half-resolution lattice.
pub open spec fn is_room(r: int, c: int) -> bool {
    r % 2 == 0 && c % 2 == 0
}

/// Position (`r`, `c`) is a wall cell of the lattice lying between two
/// in-bounds room cells: exactly one coordinate is odd, and the two
/// room cells straddling it along the odd axis are both on the grid.
pub open spec fn connector_ok(r: int, c: int, rc: int, cc: int) -> bool {
    ||| (r % 2 == 1 && c % 2 == 0 && 1 <= r && r + 1 < rc && 0 <= c < cc)
    ||| (r % 2 == 0 && c % 2 == 1 && 0 <= r < rc && 1 <= c && c + 1 < cc)
}

/// The cell that `e` names is a room cell, or a wall cell between two
/// in-bounds rooms: no event ever touches a lattice corner (odd row and
/// odd column).
pub open spec fn maze_event_cell_ok(
    nodes: Seq<Vec<Node>>,
    rc: int,
    cc: int,
    e: TerrainNode,
) -> bool {
    exists|r: int, c: int|
        0 <= r < rc && 0 <= c < cc && (#[trigger] mnode_at(nodes, r, c)).tile_id == e.tile_id && (
        is_room(r, c) || connector_ok(r, c, rc, cc))
}

/// Like `maze_event_cell_ok`, stated over the tile snapshot.
pub open spec fn tile_event_cell_ok(tiles: Seq<Tile>, rc: int, cc: int, e: TerrainNode) -> bool {
    exists|i: int|
        0 <= i < tiles.len() && (#[trigger] tiles[i]).id == e.tile_id && (is_room(
            tiles[i].row as int,
            tiles[i].col as int,
        ) || connector_ok(tiles[i].row as int, tiles[i].col as int, rc, cc))
}

/// Somewhere in `events`, at index `from` or later, the wall of a
/// connector cell orthogonally adjacent to the room at (`r`, `c`) is
/// removed.
pub open spec fn has_adjacent_link_removal(
    nodes: Seq<Vec<Node>>,
    rc: int,
    cc: int,
    events: Seq<TerrainNode>,
    from: int,
    r: int,
    c: int,
) -> bool {
    exists|j: int, mr: int, mc: int|
        from <= j < events.len() && 0 <= mr < rc && 0 <= mc < cc && (#[trigger] events[j]).tile_id
            == (#[trigger] mnode_at(nodes, mr, mc)).tile_id && events[j].action
            == TerrainAction::Removed && events[j].build_type == BuildType::Wall && connector_ok(
            mr,
            mc,
            rc,
            cc,
        ) && ((mr == r && (mc == c + 1 || mc + 1 == c)) || (mc == c && (mr == r + 1 || mr + 1
            == r)))
}

/// Like `has_adjacent_link_removal`, stated over the tile snapshot.
pub open spec fn tiles_adjacent_link_removal(
    tiles: Seq<Tile>,
    rc: int,
    cc: int,
    events: Seq<TerrainNode>,
    from: int,
    r: int,
    c: int,
) -> bool {
    exists|j: int, mr: int, mc: int|
        from <= j < events.len() && 0 <= mr < rc && 0 <= mc < cc && (#[trigger] events[j]).tile_id
            as int == tile_id_at(tiles, mr, mc) && #[trigger] cell_covered(tiles, mr, mc)
            && events[j].action == TerrainAction::Removed && events[j].build_type == BuildType::Wall
            && connector_ok(mr, mc, rc, cc) && ((mr == r && (mc == c + 1 || mc + 1 == c)) || (mc
            == c && (mr == r + 1 || mr + 1 == r)))
}

/// A recorded adjacent wall removal stays recorded when the stream is
/// extended.
pub proof fn lemma_adjacent_link_extend(
    nodes: Seq<Vec<Node>>,
    rc: int,
    cc: int,
    s: Seq<TerrainNode>,
    t: Seq<TerrainNode>,
    from: int,
    r: int,
    c: int,
)
    requires
        0 <= from,
        s.len() <= t.len(),
        forall|k: int| 0 <= k < s.len() ==> t[k] == s[k],
        has_adjacent_link_removal(nodes, rc, cc, s, from, r, c),
    ensures
        has_adjacent_link_removal(nodes, rc, cc, t, from, r, c),
{
    let (j, mr, mc) = choose|j: int, mr: int, mc: int|
        from <= j < s.len() && 0 <= mr < rc && 0 <= mc < cc && (#[trigger] s[j]).tile_id == (
        #[trigger] mnode_at(nodes, mr, mc)).tile_id && s[j].action == TerrainAction::Removed
            && s[j].build_type == BuildType::Wall && connector_ok(mr, mc, rc, cc) && ((mr == r && (
        mc == c + 1 || mc + 1 == c)) || (mc == c && (mr == r + 1 || mr + 1 == r)));
    assert(t[j] == s[j]);
    assert(0 <= j < s.len());
}

/// The maze node at a covered position carries the identity of the one
/// tile sitting there.
pub proof fn m_lemma_reflect_at(
    nodes: Seq<Vec<Node>>,
    tiles: Seq<Tile>,
    rc: int,
    cc: int,
    r: int,
    c: int,
)
    requires
        tiles_wf(tiles, rc, cc),
        m_reflects(nodes, tiles),
        0 <= r < rc,
        0 <= c < cc,
    ensures
        cell_covered(tiles, r, c),
        mnode_at(nodes, r, c).tile_id == tile_id_at(tiles, r, c),
{
    assert(cell_covered(tiles, r, c));
    let i = choose|i: int| 0 <= i < tiles.len() && tile_at_pos(#[trigger] tiles[i], r, c);
    assert(mnode_at(nodes, tiles[i].row as int, tiles[i].col as int).tile_id == tiles[i].id);
}

/// The walk's record contains position (`r`, `c`).
pub open spec fn walk_contains(s: Seq<(usize, usize)>, r: int, c: int) -> bool {
    exists|k: int| 0 <= k < s.len() && (#[trigger] s[k]).0 == r && s[k].1 == c
}

/// A known identity carries over between arrays whose identities agree.
pub proof fn m_lemma_known_transfer(
    a: Seq<Vec<Node>>,
    b: Seq<Vec<Node>>,
    rc: int,
    cc: int,
    id: int,
)
    requires
        m_statics(a, b, rc, cc),
        m_known_id(b, rc, cc, id),
    ensures
        m_known_id(a, rc, cc, id),
{
    let (r, c) = choose|r: int, c: int|
        0 <= r < rc && 0 <= c < cc && (#[trigger] mnode_at(b, r, c)).tile_id == id;
    assert(mnode_at(a, r, c).tile_id == id);
}

/// A position recorded in a walk stays recorded when the walk is
/// extended.
pub proof fn lemma_walk_contains_extend(s: Seq<(usize, usize)>, t: Seq<(usize, usize)>, r: int, c: int)
    requires
        s.len() <= t.len(),
        forall|k: int| 0 <= k < s.len() ==> t[k] == s[k],
        walk_contains(s, r, c),
    ensures
        walk_contains(t, r, c),
{
    let k = choose|k: int| 0 <= k < s.len() && (#[trigger] s[k]).0 == r && s[k].1 == c;
    assert(t[k] == s[k]);
}

/// From index `from` on, every event of `events` names a cell of
/// `nodes`.
pub open spec fn m_events_known(
    nodes: Seq<Vec<Node>>,
    rc: int,
    cc: int,
    events: Seq<TerrainNode>,
    from: int,
) -> bool {
    forall|j: int|
        from <= j < events.len() ==> m_known_id(nodes, rc, cc, (#[trigger] events[j]).tile_id as int)
}

/// Writing one maze cell leaves every other cell, and the array's
/// shape, untouched.
pub proof fn m_lemma_update_cell(
    prev: Seq<Vec<Node>>,
    cur: Seq<Vec<Node>>,
    rc: int,
    cc: int,
    vr: int,
    vc: int,
    n: Node,
)
    requires
        mgrid_dims(prev, rc, cc),
        0 <= vr < rc,
        0 <= vc < cc,
        cur.len() == prev.len(),
        cur[vr]@ == prev[vr]@.update(vc, n),
        forall|r: int| 0 <= r < rc && r != vr ==> cur[r] == prev[r],
    ensures
        mgrid_dims(cur, rc, cc),
        mnode_at(cur, vr, vc) == n,
        forall|r: int, c: int|
            0 <= r < rc && 0 <= c < cc && !(r == vr && c == vc) ==> #[trigger] mnode_at(cur, r, c)
                == mnode_at(prev, r, c),
{
    assert forall|r: int| 0 <= r < rc implies (#[trigger] cur[r])@.len() == cc by {
        if r != vr {
            assert(cur[r] == prev[r]);
        }
    }
}

/// A room cell that is still unvisited, recognized by the node's own
/// position fields.
pub open spec fn room_unvisited(n: Node) -> bool {
    n.state == NodeState::Unvisited && n.row % 2 == 0 && n.col % 2 == 0
}

/// How many room cells of one row are still unvisited.
pub open spec fn count_unvisited_rooms_row(row: Seq<Node>) -> nat
    decreases row.len(),
{
    if row.len() == 0 {
        0
    } else {
        count_unvisited_rooms_row(row.drop_last()) + if room_unvisited(row.last()) {
            1nat
        } else {
            0nat
        }
    }
}

/// How many room cells of the whole array are still unvisited: the
/// measure that shrinks with every committed walk.
pub open spec fn count_unvisited_rooms(nodes: Seq<Vec<Node>>) -> nat
    decreases nodes.len(),
{
    if nodes.len() == 0 {
        0
    } else {
        count_unvisited_rooms(nodes.drop_last()) + count_unvisited_rooms_row(nodes.last()@)
    }
}

proof fn m_lemma_count_row_mono(a: Seq<Node>, b: Seq<Node>)
    requires
        a.len() == b.len(),
        forall|i: int| 0 <= i < a.len() ==> (room_unvisited(#[trigger] b[i]) ==> room_unvisited(a[i])),
    ensures
        count_unvisited_rooms_row(b) <= count_unvisited_rooms_row(a),
    decreases a.len(),
{
    if a.len() > 0 {
        assert forall|i: int|
            0 <= i < a.drop_last().len() implies (room_unvisited(#[trigger] b.drop_last()[i])
            ==> room_unvisited(a.drop_last()[i])) by {
            assert(a.drop_last()[i] == a[i]);
            assert(b.drop_last()[i] == b[i]);
        }
        m_lemma_count_row_mono(a.drop_last(), b.drop_last());
        assert(a.last() == a[a.len() - 1]);
        assert(b.last() == b[a.len() - 1]);
    }
}

proof fn m_lemma_count_row_strict(a: Seq<Node>, b: Seq<Node>, j: int)
    requires
        a.len() == b.len(),
        forall|i: int| 0 <= i < a.len() ==> (room_unvisited(#[trigger] b[i]) ==> room_unvisited(a[i])),
        0 <= j < a.len(),
        room_unvisited(a[j]),
        !room_unvisited(b[j]),
    ensures
        count_unvisited_rooms_row(b) < count_unvisited_rooms_row(a),
    decreases a.len(),
{
    assert forall|i: int|
        0 <= i < a.drop_last().len() implies (room_unvisited(#[trigger] b.drop_last()[i])
        ==> room_unvisited(a.drop_last()[i])) by {
        assert(a.drop_last()[i] == a[i]);
        assert(b.drop_last()[i] == b[i]);
    }
    if j == a.len() - 1 {
        m_lemma_count_row_mono(a.drop_last(), b.drop_last());
        assert(a.last() == a[j]);
        assert(b.last() == b[j]);
    } else {
        assert(a.drop_last()[j] == a[j]);
        assert(b.drop_last()[j] == b[j]);
        m_lemma_count_row_strict(a.drop_last(), b.drop_last(), j);
        assert(a.last() == a[a.len() - 1]);
        assert(b.last() == b[a.len() - 1]);
    }
}

/// If no room cell becomes newly unvisited, the measure cannot grow.
proof fn m_lemma_count_mono(a: Seq<Vec<Node>>, b: Seq<Vec<Node>>)
    requires
        a.len() == b.len(),
        forall|r: int| 0 <= r < a.len() ==> (#[trigger] a[r])@.len() == b[r]@.len(),
        forall|r: int, i: int|
            0 <= r < a.len() && 0 <= i < a[r]@.len() ==> (room_unvisited(#[trigger] b[r]@[i])
                ==> room_unvisited(a[r]@[i])),
    ensures
        count_unvisited_rooms(b) <= count_unvisited_rooms(a),
    decreases a.len(),
{
    if a.len() > 0 {
        let r = a.len() - 1;
        m_lemma_count_mono(a.drop_last(), b.drop_last());
        m_lemma_count_row_mono(a[r]@, b[r]@);
        assert(a.last() == a[r]);
        assert(b.last() == b[r]);
    }
}

/// Committing one previously unvisited room strictly shrinks the
/// measure.
pub proof fn m_lemma_count_strict(a: Seq<Vec<Node>>, b: Seq<Vec<Node>>, r0: int, c0: int)
    requires
        a.len() == b.len(),
        forall|r: int| 0 <= r < a.len() ==> (#[trigger] a[r])@.len() == b[r]@.len(),
        forall|r: int, i: int|
            0 <= r < a.len() && 0 <= i < a[r]@.len() ==> (room_unvisited(#[trigger] b[r]@[i])
                ==> room_unvisited(a[r]@[i])),
        0 <= r0 < a.len(),
        0 <= c0 < a[r0]@.len(),
        room_unvisited(a[r0]@[c0]),
        !room_unvisited(b[r0]@[c0]),
    ensures
        count_unvisited_rooms(b) < count_unvisited_rooms(a),
    decreases a.len(),
{
    let r = a.len() - 1;
    assert(a.last() == a[r]);
    assert(b.last() == b[r]);
    if r0 == r {
        m_lemma_count_mono(a.drop_last(), b.drop_last());
        m_lemma_count_row_strict(a[r]@, b[r]@, c0);
    } else {
        assert(a.drop_last()[r0] == a[r0]);
        m_lemma_count_strict(a.drop_last(), b.drop_last(), r0, c0);
        m_lemma_count_row_mono(a[r]@, b[r]@);
    }
}

/// Builds the dense maze array from the snapshot: every cell untouched,
/// carrying the identity and position of its tile.
pub fn build_maze_nodes(tiles: &Vec<Tile>, row_count: usize, col_count: usize) -> (nodes: Vec<
    Vec<Node>,
>)
    requires
        dims_ok(row_count as int, col_count as int),
        tiles_wf(tiles@, row_count as int, col_count as int),
    ensures
        mgrid_dims(nodes@, row_count as int, col_count as int),
        m_positions_ok(nodes@, row_count as int, col_count as int),
        m_reflects(nodes@, tiles@),
        forall|r: int, c: int|
            0 <= r < row_count && 0 <= c < col_count ==> (#[trigger] mnode_at(nodes@, r, c)).state
                == NodeState::Unvisited,
{
    let mut nodes: Vec<Vec<Node>> = Vec::new();
    let mut r: usize = 0;
    while r < row_count
        invariant
            r <= row_count,
            nodes@.len() == r,
            forall|k: int| 0 <= k < r ==> (#[trigger] nodes@[k])@.len() == col_count,
            forall|k: int, c: int|
                0 <= k < r && 0 <= c < col_count ==> {
                    let n = #[trigger] mnode_at(nodes@, k, c);
                    &&& n.tile_id == 0
                    &&& n.row == 0
                    &&& n.col == 0
                    &&& n.state == NodeState::Unvisited
                },
        decreases row_count - r,
    {
        let mut row: Vec<Node> = Vec::new();
        let mut c: usize = 0;
        while c < col_count
            invariant
                c <= col_count,
                row@.len() == c,
                forall|j: int|
                    0 <= j < c ==> {
                        let n = #[trigger] row@[j];
                        &&& n.tile_id == 0
                        &&& n.row == 0
                        &&& n.col == 0
                        &&& n.state == NodeState::Unvisited
                    },
            decreases col_count - c,
        {
            row.push(Node::default());
            c = c + 1;
        }
        let ghost prev = nodes@;
        nodes.push(row);
        proof {
            assert forall|k: int, c2: int|
                0 <= k < prev.len() && 0 <= c2 < col_count implies #[trigger] mnode_at(
                nodes@,
                k,
                c2,
            ) == mnode_at(prev, k, c2) by {
                assert(nodes@[k] == prev[k]);
            }
            assert forall|c2: int| 0 <= c2 < col_count implies #[trigger] mnode_at(
                nodes@,
                prev.len() as int,
                c2,
            ) == row@[c2] by {}
        }
        r = r + 1;
    }

    let mut i: usize = 0;
    while i < tiles.len()
        invariant
            i <= tiles@.len(),
            dims_ok(row_count as int, col_count as int),
            tiles_wf(tiles@, row_count as int, col_count as int),
            mgrid_dims(nodes@, row_count as int, col_count as int),
            forall|r2: int, c2: int|
                0 <= r2 < row_count && 0 <= c2 < col_count ==> (#[trigger] mnode_at(
                    nodes@,
                    r2,
                    c2,
                )).state == NodeState::Unvisited,
            forall|j: int|
                0 <= j < i ==> {
                    let t = #[trigger] tiles@[j];
                    mnode_at(nodes@, t.row as int, t.col as int).tile_id == t.id && mnode_at(
                        nodes@,
                        t.row as int,
                        t.col as int,
                    ).row == t.row && mnode_at(nodes@, t.row as int, t.col as int).col == t.col
                },
        decreases tiles@.len() - i,
    {
        let t = tiles[i];
        let mut n = nodes[t.row][t.col];
        n.from_tile(&t);
        let ghost prev = nodes@;
        nodes[t.row][t.col] = n;
        proof {
            m_lemma_update_cell(
                prev,
                nodes@,
                row_count as int,
                col_count as int,
                t.row as int,
                t.col as int,
                n,
            );
        }
        i = i + 1;
    }
    proof {
        assert forall|r2: int, c2: int|
            0 <= r2 < row_count && 0 <= c2 < col_count implies {
            let n = #[trigger] mnode_at(nodes@, r2, c2);
            n.row == r2 && n.col == c2
        } by {
            assert(cell_covered(tiles@, r2, c2));
            let j = choose|j: int| 0 <= j < tiles@.len() && tile_at_pos(#[trigger] tiles@[j], r2, c2);
            assert(mnode_at(nodes@, tiles@[j].row as int, tiles@[j].col as int).row
                == tiles@[j].row);
        }
    }
    nodes
}

} // verus!
