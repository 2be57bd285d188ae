//! 2D integer coordinates and the three distance heuristics.
//!
//! All heuristics are scaled by 10 so that they share a unit with the step
//! costs of the search (10 per orthogonal step, 14 per diagonal step).  The
//! Euclidean heuristic is `round(10 * sqrt(dx^2 + dy^2))`, computed with an
//! exact integer square root.

use vstd::prelude::*;

verus! {

/// An immutable 2D integer coordinate.  Bounds are the grid's responsibility;
/// a `Position` itself is never validated.
#[derive(Clone, Copy, Debug, PartialEq, Eq, Structural)]
pub struct Position {
    pub x: i32,
    pub y: i32,
}

impl Position {
    pub fn new(x: i32, y: i32) -> (p: Position)
        ensures
            p.x == x,
            p.y == y,
    {
        Position { x, y }
    }

    /// Componentwise sum, used to apply a fixed neighbour offset.
    pub fn add(&self, rhs: &Position) -> (p: Position)
        requires
            i32::MIN <= self.x + rhs.x <= i32::MAX,
            i32::MIN <= self.y + rhs.y <= i32::MAX,
        ensures
            p.x == self.x + rhs.x,
            p.y == self.y + rhs.y,
    {
        Position { x: self.x + rhs.x, y: self.y + rhs.y }
    }
}

/// `|a - b|` over unbounded integers.
pub open spec fn abs_diff(a: int, b: int) -> int {
    if a >= b {
        a - b
    } else {
        b - a
    }
}

/// The Manhattan heuristic: `10 * (|dx| + |dy|)`.
pub open spec fn manhattan_spec(from: Position, to: Position) -> int {
    10 * (abs_diff(from.x as int, to.x as int) + abs_diff(from.y as int, to.y as int))
}

/// The Chebyshev (diagonal) heuristic: `10 * max(|dx|, |dy|)`.
pub open spec fn diagonal_spec(from: Position, to: Position) -> int {
    if abs_diff(from.x as int, to.x as int) >= abs_diff(from.y as int, to.y as int) {
        10 * abs_diff(from.x as int, to.x as int)
    } else {
        10 * abs_diff(from.y as int, to.y as int)
    }
}

/// `100 * (dx^2 + dy^2)`: the square of the Euclidean distance, pre-scaled so
/// that its rounded square root carries the common factor of 10.
pub open spec fn euclid_sq_spec(from: Position, to: Position) -> int {
    let dx = abs_diff(from.x as int, to.x as int);
    let dy = abs_diff(from.y as int, to.y as int);
    100 * (dx * dx + dy * dy)
}

/// `r` is the square root of `n` rounded to the nearest integer:
/// `r - 1/2 <= sqrt(n) < r + 1/2`, stated over integers.  For each `n >= 0`
/// exactly one `r` satisfies this (see `lemma_rounded_root_unique`).
pub open spec fn is_rounded_root(n: int, r: int) -> bool {
    &&& 0 <= r
    &&& n <= r * r + r
    &&& (r == 0 || r * r < n + r)
}

/// At most one integer is the rounded square root of a given `n`.
pub proof fn lemma_rounded_root_unique(n: int, r1: int, r2: int)
    requires
        is_rounded_root(n, r1),
        is_rounded_root(n, r2),
    ensures
        r1 == r2,
{
    assert(r1 == r2) by (nonlinear_arith)
        requires
            0 <= r1,
            0 <= r2,
            n <= r1 * r1 + r1,
            n <= r2 * r2 + r2,
            (r1 == 0 || r1 * r1 < n + r1),
            (r2 == 0 || r2 * r2 < n + r2),
    {
    }
}

/// The rounded root of the scaled squared distance never exceeds the
/// Manhattan distance at the same scale.
proof fn lemma_rounded_root_le_manhattan(dx: int, dy: int, r: int)
    requires
        0 <= dx,
        0 <= dy,
        is_rounded_root(100 * (dx * dx + dy * dy), r),
    ensures
        r <= 10 * (dx + dy),
{
    let m = 10 * (dx + dy);
    assert(r <= m) by (nonlinear_arith)
        requires
            0 <= dx,
            0 <= dy,
            m == 10 * (dx + dy),
            0 <= r,
            100 * (dx * dx + dy * dy) <= r * r + r,
            (r == 0 || r * r < 100 * (dx * dx + dy * dy) + r),
    {
        assert(100 * (dx * dx + dy * dy) <= m * m);
    }
}

/// Greatest `s` with `s * s <= n`, for `n` below `2^72`.
fn isqrt_u128(n: u128) -> (s: u128)
    requires
        n < 0x1000000000000000000,
    ensures
        s * s <= n < (s + 1) * (s + 1),
{
    let mut lo: u128 = 0;
    let mut hi: u128 = 0x1000000000;
    assert(hi * hi == 0x1000000000000000000) by (nonlinear_arith)
        requires
            hi == 0x1000000000,
    {
    }
    while hi - lo > 1
        invariant
            lo < hi <= 0x1000000000,
            lo * lo <= n,
            n < hi * hi,
        decreases hi - lo,
    {
        let mid = lo + (hi - lo) / 2;
        assert(mid * mid <= 0x1000000000000000000) by (nonlinear_arith)
            requires
                0 < mid <= 0x1000000000,
        {
        }
        if mid * mid <= n {
            lo = mid;
        } else {
            hi = mid;
        }
    }
    lo
}

/// Manhattan distance: ten times the sum of the coordinate differences.
pub fn manhattan_distance(from: &Position, to: &Position) -> (r: usize)
    requires
        manhattan_spec(*from, *to) <= usize::MAX,
    ensures
        r == manhattan_spec(*from, *to),
{
    let dx = (from.x as i64) - (to.x as i64);
    let dy = (from.y as i64) - (to.y as i64);
    let dx = if dx < 0 {
        -dx
    } else {
        dx
    };
    let dy = if dy < 0 {
        -dy
    } else {
        dy
    };
    (10 * (dx + dy)) as usize
}

/// Chebyshev distance: ten times the larger coordinate difference.
pub fn diagonal_distance(from: &Position, to: &Position) -> (r: usize)
    requires
        manhattan_spec(*from, *to) <= usize::MAX,
    ensures
        r == diagonal_spec(*from, *to),
{
    let dx = (from.x as i64) - (to.x as i64);
    let dy = (from.y as i64) - (to.y as i64);
    let dx = if dx < 0 {
        -dx
    } else {
        dx
    };
    let dy = if dy < 0 {
        -dy
    } else {
        dy
    };
    let m = if dx >= dy {
        dx
    } else {
        dy
    };
    (10 * m) as usize
}

/// Euclidean distance, rounded to the nearest integer at scale 10.
pub fn euclidean_distance(from: &Position, to: &Position) -> (r: usize)
    requires
        manhattan_spec(*from, *to) <= usize::MAX,
    ensures
        is_rounded_root(euclid_sq_spec(*from, *to), r as int),
        r <= manhattan_spec(*from, *to),
{
    let dx = (from.x as i64) - (to.x as i64);
    let dy = (from.y as i64) - (to.y as i64);
    let dx = if dx < 0 {
        -dx
    } else {
        dx
    };
    let dy = if dy < 0 {
        -dy
    } else {
        dy
    };
    let dxu = dx as u128;
    let dyu = dy as u128;
    assert(dxu * dxu + dyu * dyu < 0x20000000000000000) by (nonlinear_arith)
        requires
            0 <= dxu < 0x100000000,
            0 <= dyu < 0x100000000,
    {
    }
    let n: u128 = 100 * (dxu * dxu + dyu * dyu);
    let s = isqrt_u128(n);
    assert(s <= 0x1000000000) by (nonlinear_arith)
        requires
            s * s <= n,
            n < 0x1000000000000000000,
    {
    }
    let r = if n <= s * s + s {
        s
    } else {
        s + 1
    };
    proof {
        assert(is_rounded_root(n as int, r as int)) by (nonlinear_arith)
            requires
                s * s <= n < (s + 1) * (s + 1),
                r == (if n <= s * s + s {
                    s as int
                } else {
                    s as int + 1
                }),
        {
        }
        assert(n as int == euclid_sq_spec(*from, *to));
        lemma_rounded_root_le_manhattan(dxu as int, dyu as int, r as int);
    }
    r as usize
}

} // verus!
