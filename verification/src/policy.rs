//! Direction and wraparound policy: the ordered list of the eight
//! neighbor offsets, optionally rotated, and the resolution of a
//! neighbor coordinate under toroidal wraparound or hard bounds.

use vstd::prelude::*;
use crate::algorithms::AlgorithmInUse;

verus! {

/// Largest supported grid extent along one axis; keeps every coordinate
/// computation inside the fixed-width integer types.
pub const MAX_GRID_DIM: usize = 0xFFFF;

/// Both grid extents are positive and within the supported range.
pub open spec fn dims_ok(rc: int, cc: int) -> bool {
    1 <= rc <= MAX_GRID_DIM && 1 <= cc <= MAX_GRID_DIM
}

/// Position (`row`, `col`) lies on an `rc` x `cc` grid.
pub open spec fn in_bounds_spec(row: int, col: int, rc: int, cc: int) -> bool {
    0 <= row < rc && 0 <= col < cc
}

/// The coordinate `p` moved by `d` on a wrapping axis of extent `n`.
pub open spec fn wrap_coord(p: int, d: int, n: int) -> int
    recommends
        n >= 1,
{
    (p + n + d) % n
}

/// Where a move by (`dr`, `dc`) from (`row`, `col`) lands: on a torus it
/// always lands, wrapped; on a bounded grid it lands only in bounds.
pub open spec fn resolve_neighbor(
    wrap: bool,
    row: int,
    col: int,
    dr: int,
    dc: int,
    rc: int,
    cc: int,
) -> Option<(int, int)> {
    if wrap {
        Some((wrap_coord(row, dr, rc), wrap_coord(col, dc, cc)))
    } else if in_bounds_spec(row + dr, col + dc, rc, cc) {
        Some((row + dr, col + dc))
    } else {
        None
    }
}

/// Position (`row`, `col`) lies on an `row_count` x `col_count` grid.
pub fn in_bounds(row: isize, col: isize, row_count: usize, col_count: usize) -> (r: bool)
    requires
        row_count <= MAX_GRID_DIM,
        col_count <= MAX_GRID_DIM,
    ensures
        r == in_bounds_spec(row as int, col as int, row_count as int, col_count as int),
{
    row >= 0 && row < row_count as isize && col >= 0 && col < col_count as isize
}

/// Resolves the neighbor of `pos` under the configured topology: wraps
/// modulo the grid extents when `world_wrap_enabled`, otherwise rejects
/// out-of-bounds moves.
pub fn handle_world_wrap_for_coords(
    algo: &AlgorithmInUse,
    pos: (usize, usize),
    delta: (isize, isize),
    row_count: usize,
    col_count: usize,
) -> (r: Option<(usize, usize)>)
    requires
        dims_ok(row_count as int, col_count as int),
        pos.0 < row_count,
        pos.1 < col_count,
        -1 <= delta.0 <= 1,
        -1 <= delta.1 <= 1,
    ensures
        ({
            let spec_r = resolve_neighbor(
                algo.world_wrap_enabled,
                pos.0 as int,
                pos.1 as int,
                delta.0 as int,
                delta.1 as int,
                row_count as int,
                col_count as int,
            );
            match r {
                Some(p) => spec_r == Some((p.0 as int, p.1 as int)) && p.0 < row_count && p.1
                    < col_count,
                None => spec_r is None,
            }
        }),
{
    if algo.world_wrap_enabled {
        let new_row = (((pos.0 + row_count) as isize + delta.0) as usize) % row_count;
        let new_col = (((pos.1 + col_count) as isize + delta.1) as usize) % col_count;
        Some((new_row, new_col))
    } else {
        let visit_row = pos.0 as isize + delta.0;
        let visit_col = pos.1 as isize + delta.1;
        if in_bounds(visit_row, visit_col, row_count, col_count) {
            Some((visit_row as usize, visit_col as usize))
        } else {
            None
        }
    }
}

/// A (row delta, col delta) pair is a king move: one step along each
/// axis at most, and not a null move.
pub open spec fn king_delta(dr: int, dc: int) -> bool {
    -1 <= dr <= 1 && -1 <= dc <= 1 && !(dr == 0 && dc == 0)
}

/// Position `b` is one king move away from position `a` under the
/// configured topology: some non-null single-step delta resolves from
/// `a` to `b`.
pub open spec fn adj_step(wrap: bool, a: (int, int), b: (int, int), rc: int, cc: int) -> bool {
    exists|dr: int, dc: int|
        king_delta(dr, dc) && #[trigger] resolve_neighbor(wrap, a.0, a.1, dr, dc, rc, cc) == Some(b)
}

/// The base exploration order of the eight compass directions, as
/// (row delta, col delta) pairs.
pub open spec fn base_dir(i: int) -> (int, int) {
    if i == 0 {
        (-1, -1)
    } else if i == 1 {
        (1, -1)
    } else if i == 2 {
        (1, 1)
    } else if i == 3 {
        (-1, 1)
    } else if i == 4 {
        (0, 1)
    } else if i == 5 {
        (1, 0)
    } else if i == 6 {
        (0, -1)
    } else {
        (-1, 0)
    }
}

/// The depth-first search strategy explores the same eight directions
/// but tries the two left-leaning diagonals in the opposite order.
pub open spec fn dfs_base_dir(i: int) -> (int, int) {
    if i == 0 {
        (1, -1)
    } else if i == 1 {
        (-1, -1)
    } else {
        base_dir(i)
    }
}

/// A direction is a king move: one step along each axis at most, and
/// not a null move.
pub open spec fn dir_ok(d: (isize, isize)) -> bool {
    -1 <= d.0 <= 1 && -1 <= d.1 <= 1 && !(d.0 == 0 && d.1 == 0)
}

fn base_direction(i: usize) -> (d: (isize, isize))
    requires
        i < 8,
    ensures
        (d.0 as int, d.1 as int) == base_dir(i as int),
{
    match i {
        0 => (-1, -1),
        1 => (1, -1),
        2 => (1, 1),
        3 => (-1, 1),
        4 => (0, 1),
        5 => (1, 0),
        6 => (0, -1),
        _ => (-1, 0),
    }
}

fn dfs_base_direction(i: usize) -> (d: (isize, isize))
    requires
        i < 8,
    ensures
        (d.0 as int, d.1 as int) == dfs_base_dir(i as int),
{
    match i {
        0 => (1, -1),
        1 => (-1, -1),
        _ => base_direction(i),
    }
}

/// The eight neighbor directions in base order, rotated left by
/// `offset` positions.
pub fn rotated_directions(offset: usize) -> (v: Vec<(isize, isize)>)
    requires
        offset < 8,
    ensures
        v@.len() == 8,
        forall|k: int|
            0 <= k < 8 ==> ((#[trigger] v@[k]).0 as int, v@[k].1 as int) == base_dir(
                (k + offset) % 8,
            ),
        forall|k: int| 0 <= k < 8 ==> dir_ok(#[trigger] v@[k]),
{
    let mut v: Vec<(isize, isize)> = Vec::new();
    let mut i: usize = 0;
    while i < 8
        invariant
            i <= 8,
            offset < 8,
            v@.len() == i,
            forall|k: int|
                0 <= k < i ==> ((#[trigger] v@[k]).0 as int, v@[k].1 as int) == base_dir(
                    (k + offset) % 8,
                ),
            forall|k: int| 0 <= k < i ==> dir_ok(#[trigger] v@[k]),
        decreases 8 - i,
    {
        let d = base_direction((i + offset) % 8);
        v.push(d);
        i = i + 1;
    }
    v
}

/// The depth-first variant of the direction list, rotated left by
/// `offset` positions.
pub fn dfs_rotated_directions(offset: usize) -> (v: Vec<(isize, isize)>)
    requires
        offset < 8,
    ensures
        v@.len() == 8,
        forall|k: int|
            0 <= k < 8 ==> ((#[trigger] v@[k]).0 as int, v@[k].1 as int) == dfs_base_dir(
                (k + offset) % 8,
            ),
        forall|k: int| 0 <= k < 8 ==> dir_ok(#[trigger] v@[k]),
{
    let mut v: Vec<(isize, isize)> = Vec::new();
    let mut i: usize = 0;
    while i < 8
        invariant
            i <= 8,
            offset < 8,
            v@.len() == i,
            forall|k: int|
                0 <= k < i ==> ((#[trigger] v@[k]).0 as int, v@[k].1 as int) == dfs_base_dir(
                    (k + offset) % 8,
                ),
            forall|k: int| 0 <= k < i ==> dir_ok(#[trigger] v@[k]),
        decreases 8 - i,
    {
        let d = dfs_base_direction((i + offset) % 8);
        v.push(d);
        i = i + 1;
    }
    v
}

/// With wraparound on, the move that decreases the column by one from a
/// tile in column 0 lands in column `cc - 1` of the same row; with
/// wraparound off, that same move yields no neighbor.
pub proof fn lemma_wrap_left_edge(row: int, rc: int, cc: int)
    requires
        0 <= row < rc,
        rc >= 1,
        cc >= 1,
    ensures
        resolve_neighbor(true, row, 0, 0, -1, rc, cc) == Some((row, cc - 1)),
        resolve_neighbor(false, row, 0, 0, -1, rc, cc) is None,
{
    assert((row + rc + 0) % rc == row) by {
        vstd::arithmetic::div_mod::lemma_mod_adds(row, rc, rc);
        vstd::arithmetic::div_mod::lemma_small_mod(row as nat, rc as nat);
        vstd::arithmetic::div_mod::lemma_mod_self_0(rc);
    }
    assert((0 + cc + -1) % cc == cc - 1) by {
        vstd::arithmetic::div_mod::lemma_small_mod((cc - 1) as nat, cc as nat);
    }
}

} // verus!
