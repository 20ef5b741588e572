use gridpath::terrain::{BuildType, TerrainAction, TerrainNode};
use gridpath::tile::{Tile, TileType};
use gridpath::wilsons::setup_and_run_wilsons;
use gridpath::wilsons_bounded::setup_and_run_wilsons_bounded;
use rand::rngs::StdRng;
use rand::SeedableRng;

fn make_grid(rows: usize, cols: usize) -> Vec<Tile> {
    let mut tiles = Vec::new();
    let mut id = 1;
    for r in 0..rows {
        for c in 0..cols {
            tiles.push(Tile { id, row: r, col: c, tile_type: TileType::Open });
            id += 1;
        }
    }
    tiles
}

/// Replays the event stream into a per-tile wall map (true = walled).
fn replay(tiles: &[Tile], events: &[TerrainNode], rows: usize, cols: usize) -> Vec<Vec<bool>> {
    let mut walled = vec![vec![false; cols]; rows];
    for e in events {
        let t = tiles.iter().find(|t| t.id == e.tile_id).expect("event for unknown tile");
        assert_eq!(e.build_type, BuildType::Wall);
        match e.action {
            TerrainAction::Added => walled[t.row][t.col] = true,
            TerrainAction::Removed => walled[t.row][t.col] = false,
        }
    }
    walled
}

fn find(parent: &mut Vec<usize>, x: usize) -> usize {
    if parent[x] == x {
        x
    } else {
        let r = find(parent, parent[x]);
        parent[x] = r;
        r
    }
}

/// Checks the spanning-tree shape over the room lattice: every room
/// open, open room-to-room connectors number rooms - 1, and the open
/// connectors join all rooms into one acyclic component.
fn assert_spanning_tree(walled: &Vec<Vec<bool>>, rows: usize, cols: usize) {
    let room_rows = (rows + 1) / 2;
    let room_cols = (cols + 1) / 2;
    let n_rooms = room_rows * room_cols;
    for rr in 0..room_rows {
        for rc in 0..room_cols {
            assert!(!walled[2 * rr][2 * rc], "every room must be carved open");
        }
    }
    let mut parent: Vec<usize> = (0..n_rooms).collect();
    let mut open_edges = 0;
    let mut merges = 0;
    for rr in 0..room_rows {
        for rc in 0..room_cols {
            let here = rr * room_cols + rc;
            if 2 * rc + 2 < cols && !walled[2 * rr][2 * rc + 1] {
                open_edges += 1;
                let there = rr * room_cols + rc + 1;
                let (a, b) = (find(&mut parent, here), find(&mut parent, there));
                assert_ne!(a, b, "an open connector must not close a cycle");
                parent[a] = b;
                merges += 1;
            }
            if 2 * rr + 2 < rows && !walled[2 * rr + 1][2 * rc] {
                open_edges += 1;
                let there = (rr + 1) * room_cols + rc;
                let (a, b) = (find(&mut parent, here), find(&mut parent, there));
                assert_ne!(a, b, "an open connector must not close a cycle");
                parent[a] = b;
                merges += 1;
            }
        }
    }
    assert_eq!(open_edges, n_rooms - 1);
    assert_eq!(merges, n_rooms - 1);
    let root = find(&mut parent, 0);
    for x in 1..n_rooms {
        assert_eq!(find(&mut parent, x), root, "all rooms must be connected");
    }
}

#[test]
fn wilsons_emits_full_wall_prefix() {
    let tiles = make_grid(5, 5);
    let mut rng = StdRng::seed_from_u64(21);
    let events = setup_and_run_wilsons(&tiles, &mut rng, 5, 5);
    assert!(events.len() >= tiles.len());
    for (i, t) in tiles.iter().enumerate() {
        assert_eq!(events[i].tile_id, t.id);
        assert_eq!(events[i].action, TerrainAction::Added);
        assert_eq!(events[i].build_type, BuildType::Wall);
    }
}

#[test]
fn wilsons_builds_spanning_tree() {
    let tiles = make_grid(5, 5);
    for seed in [1u64, 7, 42, 1000] {
        let mut rng = StdRng::seed_from_u64(seed);
        let events = setup_and_run_wilsons(&tiles, &mut rng, 5, 5);
        let walled = replay(&tiles, &events, 5, 5);
        assert_spanning_tree(&walled, 5, 5);
    }
}

#[test]
fn wilsons_larger_grid_spanning_tree() {
    let tiles = make_grid(9, 7);
    let mut rng = StdRng::seed_from_u64(5);
    let events = setup_and_run_wilsons(&tiles, &mut rng, 9, 7);
    let walled = replay(&tiles, &events, 9, 7);
    assert_spanning_tree(&walled, 9, 7);
}

#[test]
fn wilsons_bounded_builds_spanning_tree() {
    let tiles = make_grid(5, 5);
    for seed in [3u64, 11, 99] {
        let mut rng = StdRng::seed_from_u64(seed);
        let events = setup_and_run_wilsons_bounded(&tiles, &mut rng, 5, 5);
        let walled = replay(&tiles, &events, 5, 5);
        assert_spanning_tree(&walled, 5, 5);
    }
}

#[test]
fn wilsons_bounded_emits_full_wall_prefix() {
    let tiles = make_grid(7, 5);
    let mut rng = StdRng::seed_from_u64(13);
    let events = setup_and_run_wilsons_bounded(&tiles, &mut rng, 7, 5);
    assert!(events.len() >= tiles.len());
    for (i, t) in tiles.iter().enumerate() {
        assert_eq!(
            events[i],
            TerrainNode { tile_id: t.id, action: TerrainAction::Added, build_type: BuildType::Wall },
        );
    }
}

#[test]
fn maze_reproducible_under_fixed_seed() {
    let tiles = make_grid(5, 5);
    let mut rng1 = StdRng::seed_from_u64(77);
    let events1 = setup_and_run_wilsons(&tiles, &mut rng1, 5, 5);
    let mut rng2 = StdRng::seed_from_u64(77);
    let events2 = setup_and_run_wilsons(&tiles, &mut rng2, 5, 5);
    assert_eq!(events1, events2);
}

#[test]
fn fill_with_walls_covers_every_tile() {
    let tiles = make_grid(3, 4);
    let walls = gridpath::tile_modifier::fill_with_walls(&tiles, TerrainAction::Added);
    assert_eq!(walls.len(), 12);
    for (w, t) in walls.iter().zip(tiles.iter()) {
        assert_eq!(w.tile_id, t.id);
        assert_eq!(w.action, TerrainAction::Added);
        assert_eq!(w.build_type, BuildType::Wall);
    }
    let cleared = gridpath::tile_modifier::fill_with_walls(&tiles, TerrainAction::Removed);
    assert!(cleared.iter().all(|w| w.action == TerrainAction::Removed));
}

#[test]
fn border_walls_cover_the_outer_rings() {
    let tiles = make_grid(6, 6);
    let walls =
        gridpath::tile_modifier::build_walls_to_block_world_wrap(&tiles, TerrainAction::Added, 6, 6);
    // Only the central 2x2 block lies outside the two outer rings.
    assert_eq!(walls.len(), 32);
    let wall_ids: Vec<usize> = walls.iter().map(|w| w.tile_id).collect();
    for t in &tiles {
        let on_border = t.row >= 4 || t.row < 2 || t.col >= 4 || t.col < 2;
        assert_eq!(wall_ids.contains(&t.id), on_border);
    }
}

#[test]
fn maze_events_never_touch_lattice_corners() {
    // After the walled prefix, both variants only ever operate on room
    // cells and on the wall cells between two rooms: a cell with both
    // coordinates odd (a lattice corner) never appears in the stream.
    let tiles = make_grid(7, 9);
    let mut rng = StdRng::seed_from_u64(21);
    let events = setup_and_run_wilsons(&tiles, &mut rng, 7, 9);
    let mut rng2 = StdRng::seed_from_u64(22);
    let events_b = setup_and_run_wilsons_bounded(&tiles, &mut rng2, 7, 9);
    for stream in [&events, &events_b] {
        for e in stream.iter().skip(tiles.len()) {
            let t = tiles.iter().find(|t| t.id == e.tile_id).unwrap();
            assert!(
                t.row % 2 == 0 || t.col % 2 == 0,
                "event at lattice corner ({}, {})",
                t.row,
                t.col
            );
            if t.row % 2 == 1 {
                assert!(t.row + 1 < 7, "connector must sit between two rooms");
            }
            if t.col % 2 == 1 {
                assert!(t.col + 1 < 9, "connector must sit between two rooms");
            }
        }
    }
}
