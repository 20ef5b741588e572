//! The A* heuristic: a Euclidean distance to the goal, scaled by 10 and
//! rounded down, aware of toroidal wraparound; the aggressive variant
//! raises the distance to the tenth power (saturating) so the heuristic
//! dominates the accumulated cost and the search behaves near-greedy.

use vstd::prelude::*;
use crate::policy::dims_ok;

verus! {

/// `a + b`, clamped at `usize::MAX`.
pub open spec fn sat_add_spec(a: int, b: int) -> int {
    if a + b <= usize::MAX {
        a + b
    } else {
        usize::MAX as int
    }
}

/// `a * b`, clamped at `usize::MAX`.
pub open spec fn sat_mul_spec(a: int, b: int) -> int {
    if a * b <= usize::MAX {
        a * b
    } else {
        usize::MAX as int
    }
}

/// `d` raised to the `k`-th power, clamping each step at `usize::MAX`.
pub open spec fn sat_pow_spec(d: int, k: nat) -> int
    decreases k,
{
    if k == 0 {
        1
    } else {
        sat_mul_spec(sat_pow_spec(d, (k - 1) as nat), d)
    }
}

pub fn sat_add(a: usize, b: usize) -> (r: usize)
    ensures
        r as int == sat_add_spec(a as int, b as int),
{
    if a <= usize::MAX - b {
        a + b
    } else {
        usize::MAX
    }
}

pub fn sat_mul(a: usize, b: usize) -> (r: usize)
    ensures
        r as int == sat_mul_spec(a as int, b as int),
{
    if b == 0 {
        return 0;
    }
    if a <= usize::MAX / b {
        proof {
            assert(a * b <= usize::MAX) by (nonlinear_arith)
                requires
                    b > 0,
                    0 <= a <= usize::MAX as int / b as int,
            ;
        }
        a * b
    } else {
        proof {
            assert(a * b > usize::MAX) by (nonlinear_arith)
                requires
                    b > 0,
                    a > usize::MAX as int / b as int,
            ;
        }
        usize::MAX
    }
}

/// `d` to the tenth power, saturating at `usize::MAX`.
pub fn sat_pow10(d: usize) -> (r: usize)
    ensures
        r as int == sat_pow_spec(d as int, 10),
{
    let mut acc: usize = 1;
    let mut k: usize = 0;
    while k < 10
        invariant
            k <= 10,
            acc as int == sat_pow_spec(d as int, k as nat),
        decreases 10 - k,
    {
        acc = sat_mul(acc, d);
        k = k + 1;
    }
    acc
}

/// The integer square root: the largest `r` with `r * r <= n`.
pub open spec fn isqrt_spec(n: int) -> int
    decreases n,
{
    if n <= 0 {
        0
    } else {
        let p = isqrt_spec(n - 1);
        if (p + 1) * (p + 1) <= n {
            p + 1
        } else {
            p
        }
    }
}

pub proof fn lemma_isqrt_bounds(n: int)
    requires
        n >= 0,
    ensures
        0 <= isqrt_spec(n),
        isqrt_spec(n) * isqrt_spec(n) <= n,
        n < (isqrt_spec(n) + 1) * (isqrt_spec(n) + 1),
    decreases n,
{
    if n > 0 {
        lemma_isqrt_bounds(n - 1);
        let p = isqrt_spec(n - 1);
        if (p + 1) * (p + 1) <= n {
            assert(n < (p + 2) * (p + 2)) by (nonlinear_arith)
                requires
                    n - 1 < (p + 1) * (p + 1),
                    0 <= p,
            ;
        }
    }
}

/// The integer square root is pinned by its two bounds.
pub proof fn lemma_isqrt_unique(n: int, r: int)
    requires
        n >= 0,
        r >= 0,
        r * r <= n,
        n < (r + 1) * (r + 1),
    ensures
        r == isqrt_spec(n),
{
    lemma_isqrt_bounds(n);
    let s = isqrt_spec(n);
    if r < s {
        assert((r + 1) * (r + 1) <= s * s) by (nonlinear_arith)
            requires
                0 <= r,
                r + 1 <= s,
        ;
    }
    if s < r {
        assert((s + 1) * (s + 1) <= r * r) by (nonlinear_arith)
            requires
                0 <= s,
                s + 1 <= r,
        ;
    }
}

/// The largest `r` with `r * r <= n`, computed by counting up.
pub fn isqrt(n: u64) -> (r: u64)
    requires
        n < 0x1_0000_0000_0000,
    ensures
        r as int == isqrt_spec(n as int),
        r * r <= n,
        n < (r + 1) * (r + 1),
{
    let mut r: u64 = 0;
    loop
        invariant
            n < 0x1_0000_0000_0000,
            r * r <= n,
            r < 0x1000000,
            r <= n,
        ensures
            r * r <= n,
            n < (r + 1) * (r + 1),
        decreases n - r,
    {
        proof {
            assert((r + 1) * (r + 1) < 0x1_0000_0000_0000_0000) by (nonlinear_arith)
                requires
                    0 <= r < 0x1000000,
            ;
        }
        let s = (r + 1) * (r + 1);
        if s > n {
            break ;
        }
        r = r + 1;
        proof {
            assert(r < 0x1000000 && r <= n) by (nonlinear_arith)
                requires
                    r >= 1,
                    r * r <= n,
                    n < 0x1_0000_0000_0000,
            ;
        }
    }
    proof {
        lemma_isqrt_unique(n as int, r as int);
    }
    r
}

/// Distance along one axis, ignoring direction.
pub open spec fn abs_delta(a: int, b: int) -> int {
    if b >= a {
        b - a
    } else {
        a - b
    }
}

/// Distance along one wrapping axis of extent `n`: when the direct
/// distance exceeds half the extent, the wrapped way around is shorter.
pub open spec fn eff_delta(a: int, b: int, n: int, wrap: bool) -> int {
    let d = abs_delta(a, b);
    if wrap && d > n / 2 {
        n - d
    } else {
        d
    }
}

/// The heuristic: 10 times the Euclidean distance between `cur` and
/// `end` (using per-axis wrapped distances when `wrap` holds), rounded
/// down; the aggressive variant is that distance to the tenth power.
pub open spec fn hscore_spec(
    cur: (int, int),
    end: (int, int),
    wrap: bool,
    aggressive: bool,
    rc: int,
    cc: int,
) -> int {
    let dx = eff_delta(cur.1, end.1, cc, wrap);
    let dy = eff_delta(cur.0, end.0, rc, wrap);
    let d = isqrt_spec(dx * dx + dy * dy);
    if aggressive {
        sat_pow_spec(d, 10)
    } else {
        sat_mul_spec(d, 10)
    }
}

/// Absolute value.
pub open spec fn abs_val(x: int) -> int {
    if x >= 0 {
        x
    } else {
        -x
    }
}

/// A king move: one step along each axis at most, not a null move,
/// as (row delta, col delta).
pub open spec fn is_king_move(d: (int, int)) -> bool {
    -1 <= d.0 <= 1 && -1 <= d.1 <= 1 && !(d.0 == 0 && d.1 == 0)
}

/// Cost of one move: 14 for a diagonal, 10 for an orthogonal step.
pub open spec fn step_cost(dr: int, dc: int) -> int {
    if dr != 0 && dc != 0 {
        14
    } else {
        10
    }
}

/// Total cost of a sequence of moves.
pub open spec fn moves_cost(s: Seq<(int, int)>) -> int
    decreases s.len(),
{
    if s.len() == 0 {
        0
    } else {
        moves_cost(s.drop_last()) + step_cost(s.last().0, s.last().1)
    }
}

/// Total row displacement of a sequence of moves.
pub open spec fn moves_dr(s: Seq<(int, int)>) -> int
    decreases s.len(),
{
    if s.len() == 0 {
        0
    } else {
        moves_dr(s.drop_last()) + s.last().0
    }
}

/// Total column displacement of a sequence of moves.
pub open spec fn moves_dc(s: Seq<(int, int)>) -> int
    decreases s.len(),
{
    if s.len() == 0 {
        0
    } else {
        moves_dc(s.drop_last()) + s.last().1
    }
}

/// The unobstructed cost of covering distances `dx`, `dy` (both
/// non-negative) with king moves: diagonals cover the shorter axis,
/// orthogonal steps the rest.
pub open spec fn octile(dx: int, dy: int) -> int {
    if dx <= dy {
        14 * dx + 10 * (dy - dx)
    } else {
        14 * dy + 10 * (dx - dy)
    }
}

/// One king move shortens the remaining octile distance by at most its
/// own cost.
proof fn lemma_octile_step(x: int, y: int, a: int, b: int)
    requires
        is_king_move((a, b)),
    ensures
        octile(abs_val(x + a), abs_val(y + b)) <= octile(abs_val(x), abs_val(y)) + step_cost(a, b),
{
}

/// No sequence of king moves covers its total displacement for less
/// than the octile distance.
pub proof fn lemma_moves_cost_lower(s: Seq<(int, int)>)
    requires
        forall|i: int| 0 <= i < s.len() ==> is_king_move(#[trigger] s[i]),
    ensures
        moves_cost(s) >= octile(abs_val(moves_dr(s)), abs_val(moves_dc(s))),
    decreases s.len(),
{
    if s.len() > 0 {
        let p = s.drop_last();
        assert forall|i: int| 0 <= i < p.len() implies is_king_move(#[trigger] p[i]) by {
            assert(p[i] == s[i]);
        }
        lemma_moves_cost_lower(p);
        lemma_octile_step(moves_dr(p), moves_dc(p), s.last().0, s.last().1);
    }
}

/// Where the sideways distance is at most twenty twenty-firsts of the
/// main one, the rounded-down Euclidean distance, scaled by 10, stays
/// below the octile distance.
pub proof fn lemma_isqrt_below_octile(dx: int, dy: int)
    requires
        dx >= 0,
        dy >= 0,
        21 * (if dx <= dy {
            dx
        } else {
            dy
        }) <= 20 * (if dx <= dy {
            dy
        } else {
            dx
        }),
    ensures
        10 * isqrt_spec(dx * dx + dy * dy) <= octile(dx, dy),
{
    let m = if dx <= dy {
        dx
    } else {
        dy
    };
    let big = if dx <= dy {
        dy
    } else {
        dx
    };
    let k = isqrt_spec(dx * dx + dy * dy);
    lemma_isqrt_bounds(dx * dx + dy * dy);
    assert(dx * dx + dy * dy == big * big + m * m) by (nonlinear_arith)
        requires
            m == (if dx <= dy {
                dx
            } else {
                dy
            }),
            big == (if dx <= dy {
                dy
            } else {
                dx
            }),
    ;
    let t = 10 * big + 4 * m;
    assert(100 * (big * big + m * m) <= t * t) by (nonlinear_arith)
        requires
            0 <= m,
            0 <= big,
            21 * m <= 20 * big,
            t == 10 * big + 4 * m,
    ;
    assert(100 * (k * k) <= t * t) by (nonlinear_arith)
        requires
            k * k <= big * big + m * m,
            100 * (big * big + m * m) <= t * t,
    ;
    assert(10 * k <= t) by (nonlinear_arith)
        requires
            0 <= k,
            0 <= t,
            100 * (k * k) <= t * t,
    ;
    assert(octile(dx, dy) == t);
}

/// Admissibility of the heuristic on a bounded grid without
/// wraparound: no wall-free sequence of king moves from `cur` to `end`
/// costs less than the heuristic estimate, provided the two distances
/// are not almost equal (on long near-diagonals the rounded Euclidean
/// estimate may exceed the diagonal cost by a sliver).
pub proof fn lemma_hscore_admissible(
    cur: (int, int),
    end: (int, int),
    rc: int,
    cc: int,
    s: Seq<(int, int)>,
)
    requires
        dims_ok(rc, cc),
        0 <= cur.0 < rc,
        0 <= cur.1 < cc,
        0 <= end.0 < rc,
        0 <= end.1 < cc,
        forall|i: int| 0 <= i < s.len() ==> is_king_move(#[trigger] s[i]),
        moves_dr(s) == end.0 - cur.0,
        moves_dc(s) == end.1 - cur.1,
        ({
            let dx = abs_val(end.1 - cur.1);
            let dy = abs_val(end.0 - cur.0);
            21 * (if dx <= dy {
                dx
            } else {
                dy
            }) <= 20 * (if dx <= dy {
                dy
            } else {
                dx
            })
        }),
    ensures
        hscore_spec(cur, end, false, false, rc, cc) <= moves_cost(s),
{
    let dx = abs_val(end.1 - cur.1);
    let dy = abs_val(end.0 - cur.0);
    lemma_moves_cost_lower(s);
    assert(octile(abs_val(moves_dr(s)), abs_val(moves_dc(s))) == octile(dx, dy));
    lemma_isqrt_below_octile(dx, dy);
    let k = isqrt_spec(dx * dx + dy * dy);
    assert(eff_delta(cur.1, end.1, cc, false) == dx);
    assert(eff_delta(cur.0, end.0, rc, false) == dy);
    assert(dx * dx + dy * dy >= 0) by (nonlinear_arith);
    lemma_isqrt_bounds(dx * dx + dy * dy);
    assert(k * k <= dx * dx + dy * dy);
    assert(dx * dx + dy * dy <= 2 * 0xFFFF * 0xFFFF) by (nonlinear_arith)
        requires
            0 <= dx < 0xFFFF,
            0 <= dy < 0xFFFF,
    ;
    assert(k <= 0x17000) by (nonlinear_arith)
        requires
            0 <= k,
            k * k <= 2 * 0xFFFF * 0xFFFF,
    ;
    assert(k * 10 <= usize::MAX);
    assert(sat_mul_spec(k, 10) == k * 10);
}

/// Heuristic estimate from `current` to `end` on a `row_count` x
/// `col_count` grid.
pub fn hscore(
    current: (usize, usize),
    end: (usize, usize),
    world_wrap_enabled: bool,
    is_aggressive: bool,
    row_count: usize,
    col_count: usize,
) -> (h: usize)
    requires
        dims_ok(row_count as int, col_count as int),
        current.0 < row_count,
        current.1 < col_count,
        end.0 < row_count,
        end.1 < col_count,
    ensures
        h as int == hscore_spec(
            (current.0 as int, current.1 as int),
            (end.0 as int, end.1 as int),
            world_wrap_enabled,
            is_aggressive,
            row_count as int,
            col_count as int,
        ),
{
    let dx: i64 = end.1 as i64 - current.1 as i64;
    let dy: i64 = end.0 as i64 - current.0 as i64;
    let mut adx: i64 = if dx < 0 {
        -dx
    } else {
        dx
    };
    let mut ady: i64 = if dy < 0 {
        -dy
    } else {
        dy
    };
    if adx > (col_count / 2) as i64 && world_wrap_enabled {
        adx = col_count as i64 - adx;
    }
    if ady > (row_count / 2) as i64 && world_wrap_enabled {
        ady = row_count as i64 - ady;
    }
    proof {
        assert(adx * adx + ady * ady <= 2 * 0xFFFF * 0xFFFF) by (nonlinear_arith)
            requires
                0 <= adx <= 0xFFFF,
                0 <= ady <= 0xFFFF,
        ;
    }
    let sq: u64 = (adx * adx + ady * ady) as u64;
    let d = isqrt(sq);
    proof {
        assert(d < 0x17000) by (nonlinear_arith)
            requires
                d * d <= sq,
                sq <= 2 * 0xFFFF * 0xFFFF,
                d >= 0,
        ;
    }
    if is_aggressive {
        sat_pow10(d as usize)
    } else {
        sat_mul(d as usize, 10)
    }
}

} // verus!
