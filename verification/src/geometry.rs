//! Exact integer plane geometry: points, squared distances, and the
//! circle-occlusion predicates the scoring engine is built on.

use vstd::prelude::*;
use crate::intmath::isqrt;
use crate::intmath::sqrt_floor;

verus! {

/// Largest coordinate magnitude the library accepts. Keeping coordinates
/// in this range lets every derived product fit comfortably in `i128`.
pub const MAX_COORD: i64 = 100_000;

/// A point of the room plane, in integer coordinates.
#[derive(Clone, Copy, PartialEq, Eq, Structural, Debug)]
pub struct Point {
    pub x: i64,
    pub y: i64,
}

/// Squared euclidean distance between two points, as a mathematical integer.
pub open spec fn dist2(a: Point, b: Point) -> int {
    (a.x - b.x) * (a.x - b.x) + (a.y - b.y) * (a.y - b.y)
}

/// Both coordinates within `[-MAX_COORD, MAX_COORD]`.
pub open spec fn coord_ok(p: Point) -> bool {
    -(MAX_COORD as int) <= p.x <= MAX_COORD as int
        && -(MAX_COORD as int) <= p.y <= MAX_COORD as int
}

impl Point {
    pub fn new(x: i64, y: i64) -> (r: Point)
        ensures
            r.x == x,
            r.y == y,
    {
        Point { x, y }
    }

    /// Exact squared distance.
    pub fn distance_squared(&self, other: Point) -> (r: i64)
        requires
            coord_ok(*self),
            coord_ok(other),
        ensures
            r == dist2(*self, other),
            0 <= r <= 80_000_000_000,
    {
        proof {
            lemma_dist2_bound(*self, other);
        }
        let dx: i64 = self.x - other.x;
        let dy: i64 = self.y - other.y;
        proof {
            assert(dx * dx <= 40_000_000_000 && dx * dx >= 0)
                by (nonlinear_arith)
                requires -(200_000) <= dx <= 200_000;
            assert(dy * dy <= 40_000_000_000 && dy * dy >= 0)
                by (nonlinear_arith)
                requires -(200_000) <= dy <= 200_000;
        }
        dx * dx + dy * dy
    }
}

/// Bounded products: `|x| <= bx` and `|y| <= by` bound `x * y` by `bx * by`.
pub proof fn lemma_abs_mul_le(x: int, y: int, bx: int, by: int)
    requires
        -bx <= x <= bx,
        -by <= y <= by,
    ensures
        -(bx * by) <= x * y <= bx * by,
{
    assert(-(bx * by) <= x * y <= bx * by) by (nonlinear_arith)
        requires -bx <= x <= bx && -by <= y <= by;
}

/// The squared distance of two bounded points is bounded and non-negative.
pub proof fn lemma_dist2_bound(a: Point, b: Point)
    requires
        coord_ok(a),
        coord_ok(b),
    ensures
        0 <= dist2(a, b) <= 80_000_000_000,
{
    let dx = a.x - b.x;
    let dy = a.y - b.y;
    assert(-(200_000) <= dx <= 200_000);
    assert(-(200_000) <= dy <= 200_000);
    assert(dx * dx <= 40_000_000_000) by (nonlinear_arith)
        requires -(200_000) <= dx <= 200_000;
    assert(dy * dy <= 40_000_000_000) by (nonlinear_arith)
        requires -(200_000) <= dy <= 200_000;
    assert(dx * dx >= 0) by (nonlinear_arith);
    assert(dy * dy >= 0) by (nonlinear_arith);
}

impl Point {
    /// Euclidean distance, rounded down to an integer.
    pub fn distance(&self, other: Point) -> (r: i64)
        requires
            coord_ok(*self),
            coord_ok(other),
        ensures
            r == sqrt_floor(dist2(*self, other)),
    {
        let d2: i64 = self.distance_squared(other);
        let r: u64 = isqrt(d2 as u64);
        proof {
            if r > 300_000 {
                assert((r as int) * (r as int) > 80_000_000_000) by (nonlinear_arith)
                    requires r as int > 300_000;
            }
        }
        r as i64
    }
}

/// Whether a disk occluder of radius `r` centred at `c` hides the point `a`
/// from a viewer at `m`.
///
/// The occluder subtends, seen from `m`, a cone of half-angle
/// `asin(r / |c - m|)` around its bearing; `a` is hidden when its bearing
/// falls strictly inside that cone. Written with cross and dot products the
/// condition is exact over the integers: the occluder is in front
/// (`dot > 0`) and `sin` of the bearing difference is below `r / |c - m|`
/// (`cross^2 < r^2 * |a - m|^2`). An occluder whose disk contains `m`
/// degenerately hides everything.
pub open spec fn cone_blocks(m: Point, c: Point, r: int, a: Point) -> bool {
    let ox = c.x - m.x;
    let oy = c.y - m.y;
    let ax = a.x - m.x;
    let ay = a.y - m.y;
    if ox * ox + oy * oy <= r * r {
        true
    } else if ax * ox + ay * oy <= 0 {
        false
    } else {
        (ax * oy - ay * ox) * (ax * oy - ay * ox) < (r * r) * (ax * ax + ay * ay)
    }
}

/// Executable form of `cone_blocks`.
pub fn blocks_cone(m: Point, c: Point, radius: i64, a: Point) -> (res: bool)
    requires
        coord_ok(m),
        coord_ok(c),
        coord_ok(a),
        0 <= radius <= MAX_COORD,
    ensures
        res == cone_blocks(m, c, radius as int, a),
{
    let ox: i128 = (c.x as i128) - (m.x as i128);
    let oy: i128 = (c.y as i128) - (m.y as i128);
    let ax: i128 = (a.x as i128) - (m.x as i128);
    let ay: i128 = (a.y as i128) - (m.y as i128);
    proof {
        let b: int = 200_000;
        lemma_abs_mul_le(ox as int, ox as int, b, b);
        lemma_abs_mul_le(oy as int, oy as int, b, b);
        lemma_abs_mul_le(ax as int, ax as int, b, b);
        lemma_abs_mul_le(ay as int, ay as int, b, b);
        lemma_abs_mul_le(ax as int, ox as int, b, b);
        lemma_abs_mul_le(ay as int, oy as int, b, b);
        lemma_abs_mul_le(ax as int, oy as int, b, b);
        lemma_abs_mul_le(ay as int, ox as int, b, b);
        lemma_abs_mul_le(radius as int, radius as int, 100_000, 100_000);
    }
    let oo: i128 = ox * ox + oy * oy;
    let rr: i128 = (radius as i128) * (radius as i128);
    if oo <= rr {
        return true;
    }
    let dot: i128 = ax * ox + ay * oy;
    if dot <= 0 {
        return false;
    }
    let cross: i128 = ax * oy - ay * ox;
    let aa: i128 = ax * ax + ay * ay;
    proof {
        let b2: int = 80_000_000_000;
        lemma_abs_mul_le(cross as int, cross as int, b2, b2);
        lemma_abs_mul_le(rr as int, aa as int, b2, b2);
    }
    cross * cross < rr * aa
}

/// Numerator of the exact squared distance from `p` to the segment
/// `(p1, p2)`, over the denominator `seg_dist2_den`.
pub open spec fn seg_dist2_num(p: Point, p1: Point, p2: Point) -> int {
    let dx = p2.x - p1.x;
    let dy = p2.y - p1.y;
    let dd = dx * dx + dy * dy;
    let t = (p.x - p1.x) * dx + (p.y - p1.y) * dy;
    if t <= 0 {
        dist2(p, p1)
    } else if t >= dd {
        dist2(p, p2)
    } else {
        dist2(p, p1) * dd - t * t
    }
}

/// Denominator that goes with `seg_dist2_num`.
pub open spec fn seg_dist2_den(p: Point, p1: Point, p2: Point) -> int {
    let dx = p2.x - p1.x;
    let dy = p2.y - p1.y;
    let dd = dx * dx + dy * dy;
    let t = (p.x - p1.x) * dx + (p.y - p1.y) * dy;
    if t <= 0 || t >= dd {
        1
    } else {
        dd
    }
}

/// A square is never negative.
pub proof fn lemma_square_nonneg(x: int)
    ensures
        x * x >= 0,
{
    assert(x * x >= 0) by (nonlinear_arith);
}

/// Lagrange's identity, giving Cauchy-Schwarz over the integers.
pub proof fn lemma_lagrange(ux: int, uy: int, vx: int, vy: int)
    ensures
        (ux * ux + uy * uy) * (vx * vx + vy * vy) - (ux * vx + uy * vy) * (ux * vx + uy * vy)
            == (ux * vy - uy * vx) * (ux * vy - uy * vx),
{
    let a = ux * vx;
    let b = uy * vy;
    let c = ux * vy;
    let d = uy * vx;
    let vv = vx * vx + vy * vy;
    assert((ux * ux + uy * uy) * vv == (ux * ux) * vv + (uy * uy) * vv) by (nonlinear_arith);
    assert((ux * ux) * vv == (ux * ux) * (vx * vx) + (ux * ux) * (vy * vy)) by (nonlinear_arith)
        requires vv == vx * vx + vy * vy;
    assert((uy * uy) * vv == (uy * uy) * (vx * vx) + (uy * uy) * (vy * vy)) by (nonlinear_arith)
        requires vv == vx * vx + vy * vy;
    assert((ux * ux) * (vx * vx) == a * a) by (nonlinear_arith)
        requires a == ux * vx;
    assert((ux * ux) * (vy * vy) == c * c) by (nonlinear_arith)
        requires c == ux * vy;
    assert((uy * uy) * (vx * vx) == d * d) by (nonlinear_arith)
        requires d == uy * vx;
    assert((uy * uy) * (vy * vy) == b * b) by (nonlinear_arith)
        requires b == uy * vy;
    assert(a * b == c * d) by (nonlinear_arith)
        requires a == ux * vx && b == uy * vy && c == ux * vy && d == uy * vx;
    assert((a + b) * (a + b) == a * a + 2 * (a * b) + b * b) by (nonlinear_arith);
    assert((c - d) * (c - d) == c * c - 2 * (c * d) + d * d) by (nonlinear_arith);
}

/// The exact squared distance from a point to a segment, as the pair of a
/// numerator and a positive denominator.
pub struct SegDist2 {
    pub num: i128,
    pub den: i128,
}

/// Exact squared distance from `p` to the segment `seg`, as a fraction.
/// The endpoints must differ: a degenerate segment has no defined
/// projection parameter.
pub fn point_to_segment_distance_squared(p: Point, seg: (Point, Point)) -> (r: SegDist2)
    requires
        coord_ok(p),
        coord_ok(seg.0),
        coord_ok(seg.1),
        seg.0 != seg.1,
    ensures
        r.num == seg_dist2_num(p, seg.0, seg.1),
        r.den == seg_dist2_den(p, seg.0, seg.1),
        0 < r.den <= 80_000_000_000,
        0 <= r.num <= 10_000_000_000_000_000_000_000,
{
    let (p1, p2) = seg;
    let dx: i128 = (p2.x as i128) - (p1.x as i128);
    let dy: i128 = (p2.y as i128) - (p1.y as i128);
    proof {
        let b: int = 200_000;
        lemma_abs_mul_le(dx as int, dx as int, b, b);
        lemma_abs_mul_le(dy as int, dy as int, b, b);
        lemma_abs_mul_le((p.x - p1.x) as int, dx as int, b, b);
        lemma_abs_mul_le((p.y - p1.y) as int, dy as int, b, b);
        lemma_dist2_bound(p, p1);
        lemma_dist2_bound(p, p2);
    }
    let dd: i128 = dx * dx + dy * dy;
    let t: i128 = ((p.x as i128) - (p1.x as i128)) * dx + ((p.y as i128) - (p1.y as i128)) * dy;
    proof {
        if dd == 0 {
            assert(dx == 0 && dy == 0) by (nonlinear_arith)
                requires dx * dx + dy * dy == 0;
        }
    }
    if t <= 0 {
        let n: i64 = p.distance_squared(p1);
        SegDist2 { num: n as i128, den: 1 }
    } else if t >= dd {
        let n: i64 = p.distance_squared(p2);
        SegDist2 { num: n as i128, den: 1 }
    } else {
        let n1: i64 = p.distance_squared(p1);
        proof {
            let b2: int = 80_000_000_000;
            lemma_abs_mul_le(n1 as int, dd as int, b2, b2);
            lemma_abs_mul_le(t as int, t as int, b2, b2);
            lemma_lagrange((p.x - p1.x) as int, (p.y - p1.y) as int, dx as int, dy as int);
            lemma_square_nonneg((p.x - p1.x) * (dy as int) - (p.y - p1.y) * (dx as int));
        }
        SegDist2 { num: (n1 as i128) * dd - t * t, den: dd }
    }
}

/// Whether the open disk of the given radius about `center` meets the
/// segment `p1`-`p2`: the exact comparison `dist2 < radius^2`, cleared of
/// its denominator.
pub fn is_line_circle_intersect(p1: Point, p2: Point, center: Point, radius: i64) -> (res: bool)
    requires
        coord_ok(p1),
        coord_ok(p2),
        coord_ok(center),
        p1 != p2,
        0 <= radius <= MAX_COORD,
    ensures
        res == (seg_dist2_num(center, p1, p2)
            < (radius * radius) * seg_dist2_den(center, p1, p2)),
{
    let d = point_to_segment_distance_squared(center, (p1, p2));
    proof {
        lemma_abs_mul_le(radius as int, radius as int, 100_000, 100_000);
    }
    let rr: i128 = (radius as i128) * (radius as i128);
    proof {
        let b2: int = 80_000_000_000;
        lemma_abs_mul_le(rr as int, d.den as int, b2, b2);
    }
    d.num < rr * d.den
}

} // verus!
