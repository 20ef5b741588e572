//! Bulk terrain operations: filling (or clearing) the whole grid with
//! walls, and walling the two outermost rings of rows and columns so
//! that toroidal wraparound is blocked.

use vstd::prelude::*;
use crate::policy::dims_ok;
use crate::terrain::{BuildType, TerrainAction, TerrainNode};
use crate::tile::Tile;

verus! {

/// One wall event of `action` for every tile, in snapshot order.
pub fn fill_with_walls(tiles: &Vec<Tile>, action: TerrainAction) -> (walls: Vec<TerrainNode>)
    ensures
        walls@.len() == tiles@.len(),
        forall|i: int|
            0 <= i < tiles@.len() ==> #[trigger] walls@[i] == (TerrainNode {
                tile_id: tiles@[i].id,
                action: action,
                build_type: BuildType::Wall,
            }),
{
    let mut walls: Vec<TerrainNode> = Vec::new();
    let mut i: usize = 0;
    while i < tiles.len()
        invariant
            i <= tiles@.len(),
            walls@.len() == i,
            forall|j: int|
                0 <= j < i ==> #[trigger] walls@[j] == (TerrainNode {
                    tile_id: tiles@[j].id,
                    action: action,
                    build_type: BuildType::Wall,
                }),
        decreases tiles@.len() - i,
    {
        let t = tiles[i];
        walls.push(TerrainNode { tile_id: t.id, action, build_type: BuildType::Wall });
        i = i + 1;
    }
    walls
}

/// Tile `t` lies within the two outermost rings of an `rc` x `cc` grid.
pub open spec fn border_tile(t: Tile, rc: int, cc: int) -> bool {
    t.row >= rc - 2 || t.row < 2 || t.col >= cc - 2 || t.col < 2
}

/// The wall events of `action` for the border tiles of the snapshot,
/// in snapshot order.
pub open spec fn border_events(
    tiles: Seq<Tile>,
    rc: int,
    cc: int,
    action: TerrainAction,
) -> Seq<TerrainNode>
    decreases tiles.len(),
{
    if tiles.len() == 0 {
        Seq::empty()
    } else {
        let rest = border_events(tiles.drop_last(), rc, cc, action);
        if border_tile(tiles.last(), rc, cc) {
            rest.push(
                TerrainNode {
                    tile_id: tiles.last().id,
                    action: action,
                    build_type: BuildType::Wall,
                },
            )
        } else {
            rest
        }
    }
}

/// One wall event of `action` for every tile on the two outermost rings
/// of rows and columns, so the edges cannot be crossed by wraparound.
pub fn build_walls_to_block_world_wrap(
    tiles: &Vec<Tile>,
    action: TerrainAction,
    row_count: usize,
    col_count: usize,
) -> (walls: Vec<TerrainNode>)
    requires
        dims_ok(row_count as int, col_count as int),
        row_count >= 2,
        col_count >= 2,
    ensures
        walls@ == border_events(tiles@, row_count as int, col_count as int, action),
{
    let mut walls: Vec<TerrainNode> = Vec::new();
    let mut i: usize = 0;
    while i < tiles.len()
        invariant
            i <= tiles@.len(),
            row_count >= 2,
            col_count >= 2,
            walls@ == border_events(
                tiles@.subrange(0, i as int),
                row_count as int,
                col_count as int,
                action,
            ),
        decreases tiles@.len() - i,
    {
        let t = tiles[i];
        proof {
            assert(tiles@.subrange(0, i + 1).drop_last() == tiles@.subrange(0, i as int));
            assert(tiles@.subrange(0, i + 1).last() == tiles@[i as int]);
        }
        if t.row >= row_count - 2 || t.row < 2 || t.col >= col_count - 2 || t.col < 2 {
            walls.push(TerrainNode { tile_id: t.id, action, build_type: BuildType::Wall });
        }
        i = i + 1;
    }
    proof {
        assert(tiles@.subrange(0, tiles@.len() as int) == tiles@);
    }
    walls
}

} // verus!
