//! Integer plane geometry: positions in milli-units, exact squared distances,
//! and a verified floor square root used to derive straight-line edge lengths.

use vstd::prelude::*;

use crate::COORD_LIMIT;

verus! {

/// A fixed 2-D position in integer milli-units.
#[derive(Clone, Copy, PartialEq, Eq, Structural, Debug)]
pub struct Pos {
    pub x: i64,
    pub y: i64,
}

/// The position lies in the generation square.
pub open spec fn in_bounds(p: Pos) -> bool {
    &&& -COORD_LIMIT <= p.x <= COORD_LIMIT
    &&& -COORD_LIMIT <= p.y <= COORD_LIMIT
}

/// Exact squared Euclidean distance between two positions.
pub open spec fn dist_sq(a: Pos, b: Pos) -> int {
    (a.x - b.x) * (a.x - b.x) + (a.y - b.y) * (a.y - b.y)
}

/// Floor of the square root of `v` (0 for negative `v`).
pub open spec fn sqrt_floor(v: int) -> int
    decreases v,
{
    if v <= 0 {
        0
    } else {
        let r = sqrt_floor(v - 1);
        if (r + 1) * (r + 1) <= v {
            r + 1
        } else {
            r
        }
    }
}

/// Squared distance does not depend on the order of its endpoints.
pub proof fn lemma_dist_sq_symmetric(a: Pos, b: Pos)
    ensures
        dist_sq(a, b) == dist_sq(b, a),
{
    assert((a.x - b.x) * (a.x - b.x) == (b.x - a.x) * (b.x - a.x)) by (nonlinear_arith);
    assert((a.y - b.y) * (a.y - b.y) == (b.y - a.y) * (b.y - a.y)) by (nonlinear_arith);
}

pub proof fn lemma_sqrt_floor_bounds(v: int)
    requires
        v >= 0,
    ensures
        0 <= sqrt_floor(v),
        sqrt_floor(v) * sqrt_floor(v) <= v,
        v < (sqrt_floor(v) + 1) * (sqrt_floor(v) + 1),
    decreases v,
{
    if v > 0 {
        lemma_sqrt_floor_bounds(v - 1);
        let r = sqrt_floor(v - 1);
        if (r + 1) * (r + 1) <= v {
            assert(v < (r + 2) * (r + 2)) by (nonlinear_arith)
                requires
                    v - 1 < (r + 1) * (r + 1),
                    r >= 0,
            ;
        }
    }
}

/// The bounds `r^2 <= v < (r+1)^2` pin the floor square root down.
pub proof fn lemma_sqrt_floor_unique(v: int, r: int)
    requires
        0 <= r,
        r * r <= v,
        v < (r + 1) * (r + 1),
    ensures
        r == sqrt_floor(v),
{
    lemma_sqrt_floor_bounds(v);
    let s = sqrt_floor(v);
    assert(r == s) by (nonlinear_arith)
        requires
            0 <= r,
            0 <= s,
            r * r <= v,
            v < (r + 1) * (r + 1),
            s * s <= v,
            v < (s + 1) * (s + 1),
    ;
}

/// A lower bound on a square carries over to the floor square root.
pub proof fn lemma_sqrt_floor_lower(v: int, b: int)
    requires
        0 <= b,
        b * b <= v,
    ensures
        sqrt_floor(v) >= b,
{
    lemma_sqrt_floor_bounds(v);
    let s = sqrt_floor(v);
    assert(s >= b) by (nonlinear_arith)
        requires
            0 <= b,
            0 <= s,
            b * b <= v,
            v < (s + 1) * (s + 1),
    ;
}

/// Squared distance, computed exactly; bounded positions keep it far from
/// overflow.
/// The position's coordinates stay where squared distances cannot overflow
/// (the pointer may leave the generation square, but not by this much).
pub open spec fn in_loose_bounds(p: Pos) -> bool {
    &&& -1_000_000 <= p.x <= 1_000_000
    &&& -1_000_000 <= p.y <= 1_000_000
}

pub fn dist_sq_exec(a: Pos, b: Pos) -> (r: i64)
    requires
        in_loose_bounds(a),
        in_loose_bounds(b),
    ensures
        r == dist_sq(a, b),
        0 <= r,
        in_bounds(a) && in_bounds(b) ==> r <= 8 * COORD_LIMIT * COORD_LIMIT,
{
    let dx: i64 = a.x - b.x;
    let dy: i64 = a.y - b.y;
    proof {
        assert(0 <= dx * dx <= 4_000_000_000_000) by (nonlinear_arith)
            requires
                -2_000_000 <= dx <= 2_000_000,
        ;
        assert(0 <= dy * dy <= 4_000_000_000_000) by (nonlinear_arith)
            requires
                -2_000_000 <= dy <= 2_000_000,
        ;
        if in_bounds(a) && in_bounds(b) {
            assert(dx * dx <= 4 * COORD_LIMIT * COORD_LIMIT) by (nonlinear_arith)
                requires
                    -2 * COORD_LIMIT <= dx <= 2 * COORD_LIMIT,
            ;
            assert(dy * dy <= 4 * COORD_LIMIT * COORD_LIMIT) by (nonlinear_arith)
                requires
                    -2 * COORD_LIMIT <= dy <= 2 * COORD_LIMIT,
            ;
        }
    }
    dx * dx + dy * dy
}

/// Floor integer square root.
pub fn isqrt(v: i64) -> (r: i64)
    requires
        0 <= v <= 100_000_000,
    ensures
        r == sqrt_floor(v as int),
        0 <= r <= 10_000,
{
    let mut r: i64 = 0;
    loop
        invariant
            0 <= r <= 10_000,
            r * r <= v,
            0 <= v <= 100_000_000,
        ensures
            0 <= r <= 10_000,
            r * r <= v,
            v < (r + 1) * (r + 1),
        decreases v - r,
    {
        proof {
            assert(0 <= (r + 1) * (r + 1) <= 10_001 * 10_001) by (nonlinear_arith)
                requires
                    0 <= r <= 10_000,
            ;
        }
        let next = (r + 1) * (r + 1);
        if next > v {
            break;
        }
        proof {
            assert((r + 1) * (r + 1) <= 100_000_000 ==> r + 1 <= 10_000) by (nonlinear_arith);
            assert((r + 1) <= (r + 1) * (r + 1)) by (nonlinear_arith)
                requires
                    r >= 0,
            ;
        }
        r = r + 1;
    }
    proof {
        lemma_sqrt_floor_unique(v as int, r as int);
    }
    r
}

/// Straight-line distance between two positions, rounded down to whole
/// milli-units.
pub fn dist_floor(a: Pos, b: Pos) -> (r: i64)
    requires
        in_bounds(a),
        in_bounds(b),
    ensures
        r == sqrt_floor(dist_sq(a, b)),
        0 <= r <= 10_000,
{
    let sq = dist_sq_exec(a, b);
    isqrt(sq)
}

} // verus!
