use gridpath::algorithms::{run_algo, Algorithm, AlgorithmInUse, PathfindingNode};
use gridpath::astar::setup_and_run_astar;
use gridpath::bfs::setup_and_run_bfs;
use gridpath::dfs::setup_and_run_dfs;
use gridpath::dijkstra::setup_and_run_dijkstra;
use gridpath::dijkstra_events;
use gridpath::tile::{Tile, TileType};
use rand::rngs::StdRng;
use rand::SeedableRng;

fn make_grid(rows: usize, cols: usize, walls: &[(usize, usize)], end: Option<(usize, usize)>) -> Vec<Tile> {
    let mut tiles = Vec::new();
    let mut id = 100;
    for r in 0..rows {
        for c in 0..cols {
            let mut tile_type = TileType::Open;
            if walls.contains(&(r, c)) {
                tile_type = TileType::Wall;
            }
            if end == Some((r, c)) {
                tile_type = TileType::End;
            }
            tiles.push(Tile { id, row: r, col: c, tile_type });
            id += 1;
        }
    }
    tiles
}

fn id_at(tiles: &[Tile], r: usize, c: usize) -> usize {
    tiles.iter().find(|t| t.row == r && t.col == c).unwrap().id
}

fn pos_of(tiles: &[Tile], id: usize) -> (usize, usize) {
    let t = tiles.iter().find(|t| t.id == id).unwrap();
    (t.row, t.col)
}

fn config(name: Algorithm, offset: usize, random: bool, wrap: bool) -> AlgorithmInUse {
    AlgorithmInUse {
        name,
        direction_offset: offset,
        random_direction: random,
        world_wrap_enabled: wrap,
    }
}

/// Total cost of the start-to-goal path: the returned path is in
/// goal-to-start order and excludes the start tile itself.
fn path_cost(tiles: &[Tile], start: (usize, usize), path: &[PathfindingNode]) -> usize {
    let mut cost = 0;
    let mut prev = start;
    for node in path.iter().rev() {
        let p = pos_of(tiles, node.tile_id);
        let dr = (p.0 as isize - prev.0 as isize).abs();
        let dc = (p.1 as isize - prev.1 as isize).abs();
        assert!(dr <= 1 && dc <= 1 && (dr, dc) != (0, 0), "path steps must be adjacent");
        cost += if dr + dc == 2 { 14 } else { 10 };
        prev = p;
    }
    cost
}

#[test]
fn dijkstra_open_grid_diagonal() {
    // A 3x3 room lattice is a 5x5 tile grid; start at the top-left
    // room, goal at the bottom-right room, no walls, no wrap.
    let tiles = make_grid(5, 5, &[], Some((4, 4)));
    let start_id = id_at(&tiles, 0, 0);
    let algo = config(Algorithm::Dijkstra, 0, false, false);
    let mut rng = StdRng::seed_from_u64(1);
    let (visited, path) = setup_and_run_dijkstra(&tiles, start_id, &algo, &mut rng, 5, 5);
    assert!(!visited.is_empty());
    // The cheapest route is the pure diagonal: four tile moves at 14,
    // crossing two of the odd wall rows; with the start included the
    // route touches exactly 3 room tiles.
    assert_eq!(path_cost(&tiles, (0, 0), &path), 56);
    assert_eq!(path.len(), 4);
    let mut rooms = 1; // the start room
    for n in &path {
        let (r, c) = pos_of(&tiles, n.tile_id);
        if r % 2 == 0 && c % 2 == 0 {
            rooms += 1;
        }
    }
    assert_eq!(rooms, 3);
    assert_eq!(path[0].tile_id, id_at(&tiles, 4, 4));
}

#[test]
fn dfs_reproducible_on_same_grid() {
    let tiles = make_grid(5, 5, &[], Some((4, 4)));
    let start_id = id_at(&tiles, 0, 0);
    let algo = config(Algorithm::DFS, 0, false, false);
    let mut rng1 = StdRng::seed_from_u64(2);
    let (v1, p1) = setup_and_run_dfs(&tiles, start_id, &algo, &mut rng1, 5, 5);
    let mut rng2 = StdRng::seed_from_u64(99);
    let (v2, p2) = setup_and_run_dfs(&tiles, start_id, &algo, &mut rng2, 5, 5);
    assert!(!p1.is_empty(), "depth-first search must find some path");
    assert_eq!(p1[0].tile_id, id_at(&tiles, 4, 4));
    assert_eq!(p1.last().unwrap().tile_id, start_id);
    assert_eq!(v1, v2);
    assert_eq!(p1, p2);
}

#[test]
fn deterministic_visited_order_all_algorithms() {
    let walls = [(1, 1), (1, 2), (2, 3)];
    let tiles = make_grid(6, 6, &walls, Some((5, 5)));
    let start_id = id_at(&tiles, 0, 0);
    for name in [
        Algorithm::Dijkstra,
        Algorithm::AStar,
        Algorithm::AggressiveStar,
        Algorithm::BFS,
        Algorithm::DFS,
    ] {
        let algo = config(name, 3, false, true);
        let mut rng1 = StdRng::seed_from_u64(5);
        let (v1, p1) = run_algo(&algo, &tiles, start_id, &mut rng1, 6, 6);
        let mut rng2 = StdRng::seed_from_u64(77);
        let (v2, p2) = run_algo(&algo, &tiles, start_id, &mut rng2, 6, 6);
        assert_eq!(v1, v2);
        assert_eq!(p1, p2);
    }
}

#[test]
fn no_wall_in_visited_or_path() {
    let walls = [(0, 1), (1, 1), (2, 1), (3, 1), (3, 2), (3, 3)];
    let tiles = make_grid(5, 5, &walls, Some((4, 4)));
    let wall_ids: Vec<usize> =
        tiles.iter().filter(|t| t.tile_type == TileType::Wall).map(|t| t.id).collect();
    let start_id = id_at(&tiles, 0, 0);
    for name in [
        Algorithm::Dijkstra,
        Algorithm::AStar,
        Algorithm::AggressiveStar,
        Algorithm::BFS,
        Algorithm::DFS,
    ] {
        for wrap in [false, true] {
            let algo = config(name, 0, false, wrap);
            let mut rng = StdRng::seed_from_u64(3);
            let (visited, path) = run_algo(&algo, &tiles, start_id, &mut rng, 5, 5);
            for n in visited.iter().chain(path.iter()) {
                assert!(!wall_ids.contains(&n.tile_id));
            }
        }
    }
}

#[test]
fn no_wall_in_visited_with_random_direction() {
    let walls = [(1, 0), (1, 1), (1, 2)];
    let tiles = make_grid(4, 4, &walls, Some((3, 3)));
    let wall_ids: Vec<usize> =
        tiles.iter().filter(|t| t.tile_type == TileType::Wall).map(|t| t.id).collect();
    let start_id = id_at(&tiles, 0, 0);
    let algo = config(Algorithm::Dijkstra, 0, true, false);
    let mut rng = StdRng::seed_from_u64(11);
    let (visited, path) = run_algo(&algo, &tiles, start_id, &mut rng, 4, 4);
    assert!(!visited.is_empty());
    for n in visited.iter().chain(path.iter()) {
        assert!(!wall_ids.contains(&n.tile_id));
    }
}

#[test]
fn astar_cost_matches_dijkstra_cost() {
    let walls = [(0, 2), (1, 2), (2, 2), (3, 2)];
    let tiles = make_grid(5, 5, &walls, Some((0, 4)));
    let start_id = id_at(&tiles, 0, 0);
    let mut rng = StdRng::seed_from_u64(4);
    let d_algo = config(Algorithm::Dijkstra, 0, false, false);
    let (_, d_path) = setup_and_run_dijkstra(&tiles, start_id, &d_algo, &mut rng, 5, 5);
    let a_algo = config(Algorithm::AStar, 0, false, false);
    let (_, a_path) = setup_and_run_astar(&tiles, start_id, false, &a_algo, &mut rng, 5, 5);
    assert!(!d_path.is_empty());
    assert!(!a_path.is_empty());
    assert_eq!(
        path_cost(&tiles, (0, 0), &d_path),
        path_cost(&tiles, (0, 0), &a_path),
    );
}

#[test]
fn dijkstra_finds_cheapest_detour() {
    // A wall bar hanging from the top at column 2 forces the path
    // down to row 3 and back: 14 + 10 + 14 + 14 + 10 + 14 = 76 is the
    // cheapest way from (0,0) to (0,4).
    let walls = [(0, 2), (1, 2), (2, 2)];
    let tiles = make_grid(5, 5, &walls, Some((0, 4)));
    let start_id = id_at(&tiles, 0, 0);
    let algo = config(Algorithm::Dijkstra, 0, false, false);
    let mut rng = StdRng::seed_from_u64(6);
    let (_, path) = setup_and_run_dijkstra(&tiles, start_id, &algo, &mut rng, 5, 5);
    assert_eq!(path_cost(&tiles, (0, 0), &path), 76);
}

#[test]
fn bfs_path_connects_goal_to_start() {
    let walls = [(0, 2), (1, 2), (2, 2)];
    let tiles = make_grid(5, 5, &walls, Some((0, 4)));
    let start_id = id_at(&tiles, 0, 0);
    let algo = config(Algorithm::BFS, 0, false, false);
    let mut rng = StdRng::seed_from_u64(7);
    let (_, path) = setup_and_run_bfs(&tiles, start_id, &algo, &mut rng, 5, 5);
    // BFS's path includes both endpoints, goal first.
    assert!(path.len() >= 2);
    assert_eq!(path[0].tile_id, id_at(&tiles, 0, 4));
    assert_eq!(path.last().unwrap().tile_id, start_id);
    for w in path.windows(2) {
        let a = pos_of(&tiles, w[0].tile_id);
        let b = pos_of(&tiles, w[1].tile_id);
        let dr = (a.0 as isize - b.0 as isize).abs();
        let dc = (a.1 as isize - b.1 as isize).abs();
        assert!(dr <= 1 && dc <= 1 && (dr, dc) != (0, 0));
    }
}

#[test]
fn unreachable_goal_gives_empty_path() {
    // The goal corner is sealed off.
    let walls = [(3, 4), (3, 3), (4, 3)];
    let tiles = make_grid(5, 5, &walls, Some((4, 4)));
    let start_id = id_at(&tiles, 0, 0);
    let algo = config(Algorithm::Dijkstra, 0, false, false);
    let mut rng = StdRng::seed_from_u64(8);
    let (visited, path) = setup_and_run_dijkstra(&tiles, start_id, &algo, &mut rng, 5, 5);
    assert!(!visited.is_empty());
    assert!(path.is_empty());
}

#[test]
fn start_equals_goal_terminates_immediately() {
    let tiles = make_grid(3, 3, &[], Some((1, 1)));
    let start_id = id_at(&tiles, 1, 1);
    let algo = config(Algorithm::Dijkstra, 0, false, false);
    let mut rng = StdRng::seed_from_u64(9);
    let (visited, path) = setup_and_run_dijkstra(&tiles, start_id, &algo, &mut rng, 3, 3);
    assert!(visited.is_empty());
    assert!(path.is_empty());
}

#[test]
fn missing_end_tile_does_not_panic() {
    let tiles = make_grid(3, 3, &[], None);
    let start_id = id_at(&tiles, 2, 2);
    for name in [Algorithm::Dijkstra, Algorithm::AStar, Algorithm::BFS] {
        let algo = config(name, 0, false, false);
        let mut rng = StdRng::seed_from_u64(10);
        let (_visited, _path) = run_algo(&algo, &tiles, start_id, &mut rng, 3, 3);
    }
}

#[test]
fn event_trace_starts_at_start_tile() {
    let tiles = make_grid(4, 4, &[], Some((3, 3)));
    let start_id = id_at(&tiles, 0, 0);
    let events = dijkstra_events::setup_and_run_dijkstra(&tiles, start_id, 4, 4);
    assert!(!events.is_empty());
    assert_eq!(events[0].tile_id, start_id);
    assert!(matches!(events[0].event_type, dijkstra_events::DijkstraEventType::Visited));
    let all_ids: Vec<usize> = tiles.iter().map(|t| t.id).collect();
    for e in &events {
        assert!(all_ids.contains(&e.tile_id));
    }
}

#[test]
fn direction_offset_changes_exploration() {
    let tiles = make_grid(4, 4, &[], Some((3, 3)));
    let start_id = id_at(&tiles, 1, 1);
    let algo0 = config(Algorithm::BFS, 0, false, false);
    let algo4 = config(Algorithm::BFS, 4, false, false);
    let mut rng = StdRng::seed_from_u64(12);
    let (v0, _) = setup_and_run_bfs(&tiles, start_id, &algo0, &mut rng, 4, 4);
    let (v4, _) = setup_and_run_bfs(&tiles, start_id, &algo4, &mut rng, 4, 4);
    assert_ne!(v0, v4, "rotating the direction list must change the expansion order here");
}

#[test]
fn dfs_respects_world_wrap_setting() {
    // One row of three tiles with a wall in the middle: without
    // wraparound the goal is unreachable, with wraparound the walk
    // crosses the seam in one step.
    let tiles = make_grid(1, 3, &[(0, 1)], Some((0, 2)));
    let start_id = id_at(&tiles, 0, 0);
    let mut rng = StdRng::seed_from_u64(9);

    let (_, blocked) =
        setup_and_run_dfs(&tiles, start_id, &config(Algorithm::DFS, 0, false, false), &mut rng, 1, 3);
    assert!(blocked.is_empty(), "with wrap off the walled-off goal must stay unreached");

    let (_, wrapped) =
        setup_and_run_dfs(&tiles, start_id, &config(Algorithm::DFS, 0, false, true), &mut rng, 1, 3);
    assert!(!wrapped.is_empty());
    assert_eq!(wrapped[0].tile_id, id_at(&tiles, 0, 2));
    assert_eq!(wrapped.last().unwrap().tile_id, start_id);
}

#[test]
fn searches_from_walled_start_return_nothing() {
    // A start tile that is itself a wall is never expanded: every
    // algorithm returns an empty visited order.
    let tiles = make_grid(3, 3, &[(0, 0)], Some((2, 2)));
    let start_id = id_at(&tiles, 0, 0);
    for name in [
        Algorithm::Dijkstra,
        Algorithm::AStar,
        Algorithm::AggressiveStar,
        Algorithm::BFS,
        Algorithm::DFS,
    ] {
        let mut rng = StdRng::seed_from_u64(3);
        let (visited, _) =
            run_algo(&config(name, 0, false, false), &tiles, start_id, &mut rng, 3, 3);
        assert!(visited.is_empty(), "a walled start must not be expanded: {name:?}");
    }
}

#[test]
fn visited_order_opens_with_the_start_tile() {
    let tiles = make_grid(4, 4, &[], Some((3, 3)));
    let start_id = id_at(&tiles, 1, 1);
    for name in [
        Algorithm::Dijkstra,
        Algorithm::AStar,
        Algorithm::AggressiveStar,
        Algorithm::BFS,
        Algorithm::DFS,
    ] {
        let mut rng = StdRng::seed_from_u64(4);
        let (visited, _) =
            run_algo(&config(name, 0, false, false), &tiles, start_id, &mut rng, 4, 4);
        assert!(!visited.is_empty());
        assert_eq!(visited[0].tile_id, start_id, "expansion must open at the start: {name:?}");
    }
}

#[test]
fn unreachable_goal_under_wrap_setting() {
    // One row of three tiles with a wall in the middle: without
    // wraparound the goal is unreachable and the path must be empty;
    // with wraparound the goal sits one seam-crossing step away.
    let tiles = make_grid(1, 3, &[(0, 1)], Some((0, 2)));
    let start_id = id_at(&tiles, 0, 0);
    let mut rng = StdRng::seed_from_u64(11);

    let (_, blocked) =
        setup_and_run_dijkstra(&tiles, start_id, &config(Algorithm::Dijkstra, 0, false, false), &mut rng, 1, 3);
    assert!(blocked.is_empty());

    let (_, wrapped) =
        setup_and_run_dijkstra(&tiles, start_id, &config(Algorithm::Dijkstra, 0, false, true), &mut rng, 1, 3);
    assert_eq!(wrapped.len(), 1, "one seam-crossing step from the goal back to the start");
    assert_eq!(wrapped[0].tile_id, id_at(&tiles, 0, 2));
}

#[test]
fn goal_is_never_expanded_by_weighted_searches() {
    let tiles = make_grid(4, 4, &[], Some((2, 2)));
    let start_id = id_at(&tiles, 0, 0);
    let goal_id = id_at(&tiles, 2, 2);
    for name in [Algorithm::Dijkstra, Algorithm::AStar, Algorithm::AggressiveStar] {
        let mut rng = StdRng::seed_from_u64(5);
        let (visited, _) =
            run_algo(&config(name, 0, false, false), &tiles, start_id, &mut rng, 4, 4);
        assert!(visited.iter().all(|n| n.tile_id != goal_id), "{name:?} expanded the goal");
    }
}
