//! Ephemeral per-run search state attached to each grid position.

use vstd::prelude::*;
use crate::tile::Tile;

verus! {

/// Search state for one cell, rebuilt fresh for every invocation.
/// `distance` holds the frontier ordering key (the accumulated cost, or
/// for the A* family the accumulated cost plus heuristic); `g_score`
/// holds the accumulated cost alone and is used by the A* family only.
/// The default `usize::MAX` acts as the infinity sentinel.
#[derive(Clone, Copy, Debug)]
pub struct Node {
    pub tile_id: usize,
    pub row: usize,
    pub col: usize,
    pub is_wall: bool,
    pub distance: usize,
    pub g_score: usize,
    pub visited: bool,
    pub previous_node: Option<(usize, usize)>,
}

impl Default for Node {
    /// A fresh unexplored cell: unvisited, not a wall, at infinite
    /// distance, with no predecessor.
    fn default() -> (n: Node)
        ensures
            n.tile_id == 0,
            n.row == 0,
            n.col == 0,
            !n.is_wall,
            n.distance == usize::MAX,
            n.g_score == usize::MAX,
            !n.visited,
            n.previous_node is None,
    {
        Node {
            tile_id: 0,
            row: 0,
            col: 0,
            is_wall: false,
            distance: usize::MAX,
            g_score: usize::MAX,
            visited: false,
            previous_node: None,
        }
    }
}

impl Node {
    /// Adopts the identity and position of `tile`, leaving the search
    /// state untouched.
    pub fn from_tile(&mut self, tile: &Tile)
        ensures
            final(self).tile_id == tile.id,
            final(self).row == tile.row,
            final(self).col == tile.col,
            final(self).is_wall == old(self).is_wall,
            final(self).distance == old(self).distance,
            final(self).g_score == old(self).g_score,
            final(self).visited == old(self).visited,
            final(self).previous_node == old(self).previous_node,
    {
        self.tile_id = tile.id;
        self.row = tile.row;
        self.col = tile.col;
    }
}

} // verus!
