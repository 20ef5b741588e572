//! Tile descriptors: the read-only snapshot of the grid that every
//! engine invocation consumes, and the well-formedness condition the
//! caller must meet (one tile per cell, unique ids, coordinates in range).

use vstd::prelude::*;

verus! {

/// Classification of one grid cell.
#[derive(Clone, Copy, PartialEq, Eq, Structural, Debug)]
pub enum TileType {
    Open,
    End,
    Wall,
}

/// One cell of the grid, identified by id and (row, col).
#[derive(Clone, Copy, PartialEq, Eq, Structural, Debug)]
pub struct Tile {
    pub id: usize,
    pub row: usize,
    pub col: usize,
    pub tile_type: TileType,
}

/// True when tile `t` sits at position (`r`, `c`).
pub open spec fn tile_at_pos(t: Tile, r: int, c: int) -> bool {
    t.row == r && t.col == c
}

/// Some tile of the snapshot sits at position (`r`, `c`).
pub open spec fn cell_covered(tiles: Seq<Tile>, r: int, c: int) -> bool {
    exists|i: int| 0 <= i < tiles.len() && tile_at_pos(#[trigger] tiles[i], r, c)
}

/// A well-formed snapshot of an `rc` x `cc` grid: every tile lies in
/// range, no two tiles share a position or an id, and every cell is
/// covered by exactly one tile.  Malformed snapshots are a caller
/// contract violation and are rejected by this precondition.
pub open spec fn tiles_wf(tiles: Seq<Tile>, rc: int, cc: int) -> bool {
    &&& forall|i: int|
        0 <= i < tiles.len() ==> (#[trigger] tiles[i]).row < rc && tiles[i].col < cc
    &&& forall|i: int, j: int|
        0 <= i < tiles.len() && 0 <= j < tiles.len() && i != j
            ==> !((#[trigger] tiles[i]).row == (#[trigger] tiles[j]).row && tiles[i].col == tiles[j].col)
    &&& forall|i: int, j: int|
        0 <= i < tiles.len() && 0 <= j < tiles.len() && i != j
            ==> (#[trigger] tiles[i]).id != (#[trigger] tiles[j]).id
    &&& forall|r: int, c: int| 0 <= r < rc && 0 <= c < cc ==> #[trigger] cell_covered(tiles, r, c)
}

/// `id` belongs to some tile of the snapshot that is not a wall.
pub open spec fn open_tile_id(tiles: Seq<Tile>, id: int) -> bool {
    exists|i: int|
        0 <= i < tiles.len() && (#[trigger] tiles[i]).id == id && tiles[i].tile_type != TileType::Wall
}

/// `id` belongs to some tile of the snapshot.
pub open spec fn known_tile_id(tiles: Seq<Tile>, id: int) -> bool {
    exists|i: int| 0 <= i < tiles.len() && (#[trigger] tiles[i]).id == id
}

/// The tile at position (`r`, `c`) exists and is not a wall.
pub open spec fn open_at(tiles: Seq<Tile>, r: int, c: int) -> bool {
    exists|i: int|
        0 <= i < tiles.len() && tile_at_pos(#[trigger] tiles[i], r, c) && tiles[i].tile_type
            != TileType::Wall
}

/// The identity of the tile at position (`r`, `c`); meaningful on a
/// well-formed snapshot, where exactly one tile sits at each cell.
pub open spec fn tile_id_at(tiles: Seq<Tile>, r: int, c: int) -> int {
    tiles[choose|i: int| 0 <= i < tiles.len() && tile_at_pos(#[trigger] tiles[i], r, c)].id as int
}

} // verus!
