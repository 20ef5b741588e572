//! The closed set of search strategies and the caller-owned knobs that
//! select one and shape its exploration order.

use vstd::prelude::*;
use crate::policy::dims_ok;
use crate::tile::{open_tile_id, tiles_wf, Tile, TileType};

verus! {

/// The five interchangeable search strategies.
#[derive(Clone, Copy, PartialEq, Eq, Structural, Debug)]
pub enum Algorithm {
    AggressiveStar,
    AStar,
    BFS,
    DFS,
    Dijkstra,
}

/// Caller-owned configuration, read-only during one invocation.
/// `direction_offset` rotates the list of the eight neighbor directions;
/// `random_direction` additionally shuffles it; `world_wrap_enabled`
/// makes the grid a torus.
pub struct AlgorithmInUse {
    pub name: Algorithm,
    pub direction_offset: usize,
    pub random_direction: bool,
    pub world_wrap_enabled: bool,
}

/// One entry of a search result: the id of a tile that was expanded
/// (visited order) or that lies on the reconstructed path.
#[derive(Clone, Copy, PartialEq, Eq, Structural, Debug)]
pub struct PathfindingNode {
    pub tile_id: usize,
}

/// Runs the selected strategy over the snapshot from the tile carrying
/// `current_tile_id`.  Whatever the strategy, the expansion order and
/// the path contain no wall tile.
pub fn run_algo(
    algo: &AlgorithmInUse,
    tiles: &Vec<Tile>,
    current_tile_id: usize,
    rng: &mut rand::rngs::StdRng,
    row_count: usize,
    col_count: usize,
) -> (res: (Vec<PathfindingNode>, Vec<PathfindingNode>))
    requires
        dims_ok(row_count as int, col_count as int),
        tiles_wf(tiles@, row_count as int, col_count as int),
        algo.direction_offset < 8,
    ensures
        forall|k: int|
            0 <= k < res.0@.len() ==> open_tile_id(tiles@, (#[trigger] res.0@[k]).tile_id as int),
        forall|k: int|
            0 <= k < res.1@.len() ==> open_tile_id(tiles@, (#[trigger] res.1@[k]).tile_id as int),
        res.1@.len() > 0 && crate::grid::last_end_pos(tiles@) is Some ==> exists|i: int|
            0 <= i < tiles@.len() && (#[trigger] tiles@[i]).tile_type == TileType::End
                && res.1@[0].tile_id == tiles@[i].id,
        ({
            let sp = crate::grid::start_pos(tiles@, current_tile_id as int);
            let gp = crate::grid::goal_pos_eff(tiles@);
            &&& (crate::tile::open_at(tiles@, sp.0, sp.1) && sp != gp ==> res.0@.len() > 0
                && res.0@[0].tile_id == crate::tile::tile_id_at(tiles@, sp.0, sp.1))
            &&& (!crate::tile::open_at(tiles@, sp.0, sp.1) ==> res.0@.len() == 0)
            &&& (algo.name == Algorithm::Dijkstra || algo.name == Algorithm::AStar || algo.name
                == Algorithm::AggressiveStar ==> crate::grid::tile_path_chain(
                tiles@,
                algo.world_wrap_enabled,
                row_count as int,
                col_count as int,
                sp,
                gp,
                res.1@,
            ) && (!crate::grid::tile_reachable(
                tiles@,
                algo.world_wrap_enabled,
                row_count as int,
                col_count as int,
                sp,
                gp,
            ) ==> res.1@.len() == 0))
            &&& (algo.name == Algorithm::BFS || algo.name == Algorithm::DFS ==> (res.1@.len() > 0
                ==> crate::grid::tile_path_chain(
                tiles@,
                algo.world_wrap_enabled,
                row_count as int,
                col_count as int,
                gp,
                gp,
                res.1@,
            )))
        }),
{
    match algo.name {
        Algorithm::AStar => crate::astar::setup_and_run_astar(
            tiles,
            current_tile_id,
            false,
            algo,
            rng,
            row_count,
            col_count,
        ),
        Algorithm::AggressiveStar => crate::astar::setup_and_run_astar(
            tiles,
            current_tile_id,
            true,
            algo,
            rng,
            row_count,
            col_count,
        ),
        Algorithm::BFS => crate::bfs::setup_and_run_bfs(
            tiles,
            current_tile_id,
            algo,
            rng,
            row_count,
            col_count,
        ),
        Algorithm::DFS => crate::dfs::setup_and_run_dfs(
            tiles,
            current_tile_id,
            algo,
            rng,
            row_count,
            col_count,
        ),
        Algorithm::Dijkstra => crate::dijkstra::setup_and_run_dijkstra(
            tiles,
            current_tile_id,
            algo,
            rng,
            row_count,
            col_count,
        ),
    }
}

} // verus!
