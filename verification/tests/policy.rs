use gridpath::algorithms::{Algorithm, AlgorithmInUse};
use gridpath::heuristic::hscore;
use gridpath::policy::{handle_world_wrap_for_coords, in_bounds, rotated_directions};

fn config(wrap: bool) -> AlgorithmInUse {
    AlgorithmInUse {
        name: Algorithm::Dijkstra,
        direction_offset: 0,
        random_direction: false,
        world_wrap_enabled: wrap,
    }
}

#[test]
fn wrap_left_edge_reaches_last_column() {
    // Moving left from column 0 with wraparound lands in the last
    // column of the same row; without wraparound there is no neighbor.
    let wrapped = handle_world_wrap_for_coords(&config(true), (3, 0), (0, -1), 8, 10);
    assert_eq!(wrapped, Some((3, 9)));
    let bounded = handle_world_wrap_for_coords(&config(false), (3, 0), (0, -1), 8, 10);
    assert_eq!(bounded, None);
}

#[test]
fn wrap_covers_all_edges() {
    let algo = config(true);
    assert_eq!(handle_world_wrap_for_coords(&algo, (0, 4), (-1, 0), 6, 9), Some((5, 4)));
    assert_eq!(handle_world_wrap_for_coords(&algo, (5, 4), (1, 0), 6, 9), Some((0, 4)));
    assert_eq!(handle_world_wrap_for_coords(&algo, (2, 8), (0, 1), 6, 9), Some((2, 0)));
}

#[test]
fn in_bounds_rejects_edges() {
    assert!(in_bounds(0, 0, 4, 4));
    assert!(in_bounds(3, 3, 4, 4));
    assert!(!in_bounds(-1, 0, 4, 4));
    assert!(!in_bounds(0, 4, 4, 4));
}

#[test]
fn rotated_directions_match_base_order() {
    let base = rotated_directions(0);
    assert_eq!(
        base,
        vec![(-1, -1), (1, -1), (1, 1), (-1, 1), (0, 1), (1, 0), (0, -1), (-1, 0)],
    );
    let shifted = rotated_directions(3);
    assert_eq!(
        shifted,
        vec![(-1, 1), (0, 1), (1, 0), (0, -1), (-1, 0), (-1, -1), (1, -1), (1, 1)],
    );
}

#[test]
fn hscore_exact_values() {
    // Euclidean distance 5 between (0,0) and (3,4), scaled by 10.
    assert_eq!(hscore((0, 0), (3, 4), false, false, 10, 10), 50);
    // Distance 8 rounds down: isqrt(4 + 49) = 7.
    assert_eq!(hscore((0, 2), (2, 9), false, false, 10, 10), 70);
}

#[test]
fn hscore_wraps_the_short_way() {
    // Nine columns apart on a ten-column torus is one column the
    // other way around.
    assert_eq!(hscore((0, 0), (0, 9), true, false, 10, 10), 10);
    assert_eq!(hscore((0, 0), (0, 9), false, false, 10, 10), 90);
}

#[test]
fn hscore_aggressive_is_tenth_power() {
    // Distance 2 raised to the tenth power.
    assert_eq!(hscore((0, 0), (0, 2), false, true, 10, 10), 1024);
    // Distance 0 stays 0 even raised to the tenth power.
    assert_eq!(hscore((4, 4), (4, 4), false, true, 10, 10), 0);
}
