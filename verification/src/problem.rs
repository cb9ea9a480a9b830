//! Static problem data: the room, the stage, musicians, attendees and
//! pillars, together with the validity conditions the scoring engine
//! relies on.

use vstd::prelude::*;
use crate::geometry::SegDist2;
use crate::geometry::seg_dist2_num;
use crate::geometry::seg_dist2_den;
use crate::geometry::point_to_segment_distance_squared;
use crate::geometry::lemma_abs_mul_le;
use crate::geometry::Point;
use crate::geometry::dist2;
use crate::geometry::coord_ok;
use crate::geometry::MAX_COORD;

verus! {

broadcast use vstd::std_specs::hash::group_hash_axioms;

pub type ProblemId = u64;

pub const MAX_PROBLEM_ID: ProblemId = 90;

/// Musicians must keep this far apart, and this far inside the stage edge.
pub const MUSICIAN_RADIUS: i64 = 10;

/// Squared minimum separation between two musicians.
pub const MUSICIAN_RADIUS_2: i64 = 100;

/// Radius of a musician's body as an occluder.
pub const BLOCK_RADIUS: i64 = 5;

/// Caps on the instance size; they keep every score within `i64`/`i128`.
pub const MAX_MUSICIANS: usize = 10_000;
pub const MAX_ATTENDEES: usize = 10_000;
pub const MAX_PILLARS: usize = 10_000;
pub const MAX_TASTE: i64 = 1_000_000;

/// Which round the problem belongs to: the lightning variant (no pillars,
/// no closeness factor) or the full variant.
#[derive(Clone, Copy, Debug, PartialEq, Eq, Structural)]
pub enum Spec {
    V1,
    V2,
}

pub const V1_PROBLEM_ID_END: ProblemId = 55;

impl From<ProblemId> for Spec {
    /// Problems up to `V1_PROBLEM_ID_END` are lightning-round problems.
    fn from(id: ProblemId) -> (r: Spec) {
        if id <= V1_PROBLEM_ID_END {
            Spec::V1
        } else {
            Spec::V2
        }
    }
}

/// The variant a problem id belongs to.
pub open spec fn spec_of_id(id: ProblemId) -> Spec {
    if id <= V1_PROBLEM_ID_END {
        Spec::V1
    } else {
        Spec::V2
    }
}

impl vstd::std_specs::convert::FromSpecImpl<ProblemId> for Spec {
    open spec fn obeys_from_spec() -> bool {
        true
    }

    open spec fn from_spec(id: ProblemId) -> Spec {
        spec_of_id(id)
    }
}

/// A listener with a fixed position and one taste value per instrument.
#[derive(Clone, Debug)]
pub struct Attendee {
    pub x: i64,
    pub y: i64,
    pub tastes: Vec<i64>,
}

impl Attendee {
    pub open spec fn pt(&self) -> Point {
        Point { x: self.x, y: self.y }
    }

    pub fn point(&self) -> (r: Point)
        ensures
            r == self.pt(),
    {
        Point { x: self.x, y: self.y }
    }
}

/// A fixed circular occluder, present only in the full variant.
#[derive(Clone, Debug)]
pub struct Pillar {
    pub center: Point,
    pub radius: i64,
}

impl Pillar {
    pub fn center_point(&self) -> (r: Point)
        ensures
            r == self.center,
    {
        self.center
    }
}

/// An immutable problem instance.
#[derive(Clone, Debug)]
pub struct Problem {
    pub room_width: i64,
    pub room_height: i64,
    pub stage_width: i64,
    pub stage_height: i64,
    pub stage_bottom_left: Point,
    pub musicians: Vec<usize>,
    pub attendees: Vec<Attendee>,
    pub pillars: Vec<Pillar>,
}

impl Problem {
    pub open spec fn nm(&self) -> int {
        self.musicians@.len() as int
    }

    pub open spec fn natt(&self) -> int {
        self.attendees@.len() as int
    }

    pub open spec fn npil(&self) -> int {
        self.pillars@.len() as int
    }

    /// The attendee lies strictly outside the stage rectangle.
    pub open spec fn attendee_off_stage(&self, j: int) -> bool {
        let a = self.attendees@[j];
        a.x < self.stage_bottom_left.x || a.x > self.stage_bottom_left.x + self.stage_width
            || a.y < self.stage_bottom_left.y || a.y > self.stage_bottom_left.y
            + self.stage_height
    }

    pub open spec fn attendee_ok(&self, j: int) -> bool {
        let a = self.attendees@[j];
        0 <= a.x <= self.room_width && 0 <= a.y <= self.room_height && self.attendee_off_stage(j)
            && (forall|t: int|
            0 <= t < a.tastes@.len() ==> -MAX_TASTE <= #[trigger] a.tastes@[t] <= MAX_TASTE)
    }

    pub open spec fn pillar_ok(&self, j: int) -> bool {
        let p = self.pillars@[j];
        0 <= p.center.x <= self.room_width && 0 <= p.center.y <= self.room_height && 0 <= p.radius
            <= MAX_COORD
    }

    /// The validity conditions the engine relies on: a sane room and stage,
    /// bounded instance sizes, every attendee off stage with bounded tastes,
    /// and every instrument assignment within every taste vector.
    pub open spec fn valid(&self) -> bool {
        &&& 0 <= self.room_width <= MAX_COORD
        &&& 0 <= self.room_height <= MAX_COORD
        &&& 0 <= self.stage_bottom_left.x
        &&& 0 <= self.stage_bottom_left.y
        &&& 2 * MUSICIAN_RADIUS <= self.stage_width
        &&& 2 * MUSICIAN_RADIUS <= self.stage_height
        &&& self.stage_bottom_left.x + self.stage_width <= self.room_width
        &&& self.stage_bottom_left.y + self.stage_height <= self.room_height
        &&& self.musicians@.len() <= MAX_MUSICIANS
        &&& self.attendees@.len() <= MAX_ATTENDEES
        &&& self.pillars@.len() <= MAX_PILLARS
        &&& (forall|j: int| 0 <= j < self.natt() ==> self.attendee_ok(j))
        &&& (forall|j: int| 0 <= j < self.npil() ==> self.pillar_ok(j))
        &&& (forall|i: int, j: int|
            0 <= i < self.nm() && 0 <= j < self.natt()
                ==> #[trigger] self.musicians@[i] < #[trigger] self.attendees@[j].tastes@.len())
    }

    /// The position is on the stage shrunk by the musician radius.
    pub open spec fn on_stage_spec(&self, p: Point) -> bool {
        self.stage_bottom_left.x + MUSICIAN_RADIUS <= p.x <= self.stage_bottom_left.x
            + self.stage_width - MUSICIAN_RADIUS && self.stage_bottom_left.y + MUSICIAN_RADIUS
            <= p.y <= self.stage_bottom_left.y + self.stage_height - MUSICIAN_RADIUS
    }

    pub fn on_stage(&self, p: Point) -> (r: bool)
        requires
            self.valid(),
        ensures
            r == self.on_stage_spec(p),
    {
        p.x >= self.stage_bottom_left.x + MUSICIAN_RADIUS && p.x <= self.stage_bottom_left.x
            + self.stage_width - MUSICIAN_RADIUS && p.y >= self.stage_bottom_left.y
            + MUSICIAN_RADIUS && p.y <= self.stage_bottom_left.y + self.stage_height
            - MUSICIAN_RADIUS
    }

    /// A uniformly random point of the shrunk stage. Relies only on the
    /// range of the draws; any returned point is on the stage.
    pub fn random_point_on_stage(&self, rng: &mut rand::rngs::StdRng) -> (r: Point)
        requires
            self.valid(),
        ensures
            self.on_stage_spec(r),
    {
        let minx: i64 = self.stage_bottom_left.x + MUSICIAN_RADIUS;
        let maxx: i64 = self.stage_bottom_left.x + self.stage_width - MUSICIAN_RADIUS;
        let miny: i64 = self.stage_bottom_left.y + MUSICIAN_RADIUS;
        let maxy: i64 = self.stage_bottom_left.y + self.stage_height - MUSICIAN_RADIUS;
        let x: i64 = if minx == maxx {
            minx
        } else {
            crate::rng::gen_range_i64(rng, minx, maxx)
        };
        let y: i64 = if miny == maxy {
            miny
        } else {
            crate::rng::gen_range_i64(rng, miny, maxy)
        };
        Point { x, y }
    }

    pub fn stage_center(&self) -> (r: Point)
        requires
            self.valid(),
        ensures
            r.x == self.stage_bottom_left.x + self.stage_width / 2,
            r.y == self.stage_bottom_left.y + self.stage_height / 2,
    {
        Point {
            x: self.stage_bottom_left.x + self.stage_width / 2,
            y: self.stage_bottom_left.y + self.stage_height / 2,
        }
    }
}

/// Any on-stage position keeps bounded coordinates.
pub proof fn lemma_on_stage_coord_ok(p: &Problem, pos: Point)
    requires
        p.valid(),
        p.on_stage_spec(pos),
    ensures
        coord_ok(pos),
{
}

/// Attendee coordinates are bounded.
pub proof fn lemma_attendee_coord_ok(p: &Problem, j: int)
    requires
        p.valid(),
        0 <= j < p.natt(),
    ensures
        coord_ok(p.attendees@[j].pt()),
{
    assert(p.attendee_ok(j));
}

/// An on-stage musician is at squared distance at least 121 from every
/// attendee: attendees stand strictly outside the stage, and the stage is
/// shrunk by the musician radius.
pub proof fn lemma_attendee_far(p: &Problem, pos: Point, j: int)
    requires
        p.valid(),
        p.on_stage_spec(pos),
        0 <= j < p.natt(),
    ensures
        dist2(pos, p.attendees@[j].pt()) >= 121,
{
    assert(p.attendee_ok(j));
    let a = p.attendees@[j].pt();
    let dx = pos.x - a.x;
    let dy = pos.y - a.y;
    assert(dx * dx >= 0) by (nonlinear_arith);
    assert(dy * dy >= 0) by (nonlinear_arith);
    if a.x < p.stage_bottom_left.x || a.x > p.stage_bottom_left.x + p.stage_width {
        assert(dx >= 11 || dx <= -11);
        assert(dx * dx >= 121) by (nonlinear_arith)
            requires dx >= 11 || dx <= -11;
    } else {
        assert(dy >= 11 || dy <= -11);
        assert(dy * dy >= 121) by (nonlinear_arith)
            requires dy >= 11 || dy <= -11;
    }
}


/// Sum of a taste vector over `0 .. upto`.
pub open spec fn taste_sum(tastes: Seq<i64>, upto: int) -> int
    decreases upto,
{
    if upto <= 0 {
        0
    } else {
        taste_sum(tastes, upto - 1) + tastes[upto - 1]
    }
}

/// The largest of the first `upto` tastes (`upto >= 1`).
pub open spec fn taste_max_upto(tastes: Seq<i64>, upto: int) -> i64
    decreases upto,
{
    if upto <= 1 {
        tastes[0]
    } else if tastes[upto - 1] > taste_max_upto(tastes, upto - 1) {
        tastes[upto - 1]
    } else {
        taste_max_upto(tastes, upto - 1)
    }
}

impl Attendee {
    /// The mean of this attendee's tastes, rounded toward negative
    /// infinity.
    pub open spec fn taste_avg_spec(&self) -> int {
        taste_sum(self.tastes@, self.tastes@.len() as int) / (self.tastes@.len() as int)
    }

    /// Mean taste, rounded toward negative infinity.
    #[verifier::loop_isolation(false)]
    pub fn taste_avg(&self) -> (r: i64)
        requires
            self.tastes@.len() >= 1,
            forall|t: int|
                0 <= t < self.tastes@.len() ==> -MAX_TASTE <= #[trigger] self.tastes@[t]
                    <= MAX_TASTE,
        ensures
            r == taste_sum(self.tastes@, self.tastes@.len() as int) / (self.tastes@.len() as int),
    {
        let n: usize = self.tastes.len();
        let mut acc: i128 = 0;
        let mut i: usize = 0;
        while i < n
            invariant
                0 <= i <= n,
                acc == taste_sum(self.tastes@, i as int),
                -(i as int) * (MAX_TASTE as int) <= acc <= (i as int) * (MAX_TASTE as int),
            decreases n - i,
        {
            proof {
                assert((i as int + 1) * (MAX_TASTE as int) == (i as int) * (MAX_TASTE as int)
                    + MAX_TASTE as int) by (nonlinear_arith);
                lemma_abs_mul_le(
                    i as int + 1,
                    MAX_TASTE as int,
                    0x1_0000_0000_0000_0000,
                    1_000_000,
                );
            }
            acc = acc + (self.tastes[i] as i128);
            i = i + 1;
        }
        proof {
            lemma_abs_mul_le(n as int, MAX_TASTE as int, 0x1_0000_0000_0000_0000, 1_000_000);
            lemma_div_shrinks(acc as int, n as int, MAX_TASTE as int);
        }
        let q: i128 = div_euclid_i128(acc, n as i128);
        q as i64
    }

    /// The largest taste.
    #[verifier::loop_isolation(false)]
    pub fn taste_max(&self) -> (r: i64)
        requires
            self.tastes@.len() >= 1,
        ensures
            r == taste_max_upto(self.tastes@, self.tastes@.len() as int),
            forall|t: int| 0 <= t < self.tastes@.len() ==> #[trigger] self.tastes@[t] <= r,
            exists|t: int| 0 <= t < self.tastes@.len() && #[trigger] self.tastes@[t] == r,
    {
        let n: usize = self.tastes.len();
        let mut best: i64 = self.tastes[0];
        let mut i: usize = 1;
        while i < n
            invariant
                1 <= i <= n,
                best == taste_max_upto(self.tastes@, i as int),
                forall|t: int| 0 <= t < i ==> #[trigger] self.tastes@[t] <= best,
                exists|t: int| 0 <= t < i && #[trigger] self.tastes@[t] == best,
            decreases n - i,
        {
            if self.tastes[i] > best {
                best = self.tastes[i];
            }
            i = i + 1;
        }
        best
    }
}

/// Euclidean division on `i128`, by magnitudes.
fn div_euclid_i128(a: i128, b: i128) -> (r: i128)
    requires
        0 < b < 0x4000_0000_0000_0000_0000_0000_0000_0000,
        -0x4000_0000_0000_0000_0000_0000_0000_0000 < a
            < 0x4000_0000_0000_0000_0000_0000_0000_0000,
    ensures
        r == a as int / b as int,
{
    if a >= 0 {
        let q: u128 = (a as u128) / (b as u128);
        q as i128
    } else {
        let m: u128 = (-a) as u128;
        let bu: u128 = b as u128;
        let q: u128 = m / bu;
        let rem: u128 = m % bu;
        proof {
            vstd::arithmetic::div_mod::lemma_fundamental_div_mod(m as int, bu as int);
            if rem == 0 {
                assert((b as int) * (-(q as int)) == -((bu as int) * (q as int)))
                    by (nonlinear_arith)
                    requires b == bu as int;
                vstd::arithmetic::div_mod::lemma_fundamental_div_mod_converse(
                    a as int,
                    b as int,
                    -(q as int),
                    0,
                );
            } else {
                assert((b as int) * (-(q as int) - 1) == -((bu as int) * (q as int)) - b)
                    by (nonlinear_arith)
                    requires b == bu as int;
                vstd::arithmetic::div_mod::lemma_fundamental_div_mod_converse(
                    a as int,
                    b as int,
                    -(q as int) - 1,
                    b - rem,
                );
            }
        }
        if rem == 0 {
            -(q as i128)
        } else {
            -(q as i128) - 1
        }
    }
}

/// Sum of the attendees' per-attendee mean tastes over `0 .. upto`.
pub open spec fn avg_sum(p: &Problem, upto: int) -> int
    decreases upto,
{
    if upto <= 0 {
        0
    } else {
        avg_sum(p, upto - 1) + p.attendees@[upto - 1].taste_avg_spec()
    }
}

/// Sum of the attendees' largest tastes over `0 .. upto`.
pub open spec fn max_sum(p: &Problem, upto: int) -> int
    decreases upto,
{
    if upto <= 0 {
        0
    } else {
        max_sum(p, upto - 1) + taste_max_upto(
            p.attendees@[upto - 1].tastes@,
            p.attendees@[upto - 1].tastes@.len() as int,
        )
    }
}

impl Problem {
    /// Mean of the attendees' mean tastes, rounded toward negative
    /// infinity at each stage.
    #[verifier::loop_isolation(false)]
    pub fn taste_avg(&self) -> (r: i64)
        requires
            self.valid(),
            self.natt() >= 1,
            forall|j: int| 0 <= j < self.natt() ==> #[trigger] self.attendees@[j].tastes@.len() >= 1,
        ensures
            r == avg_sum(self, self.natt()) / self.natt(),
            -MAX_TASTE <= r <= MAX_TASTE,
    {
        let n: usize = self.attendees.len();
        let mut acc: i128 = 0;
        let mut i: usize = 0;
        while i < n
            invariant
                0 <= i <= n,
                acc == avg_sum(self, i as int),
                -(i as int) * (MAX_TASTE as int) <= acc <= (i as int) * (MAX_TASTE as int),
            decreases n - i,
        {
            proof {
                assert(self.attendee_ok(i as int));
                assert((i as int + 1) * (MAX_TASTE as int) == (i as int) * (MAX_TASTE as int)
                    + MAX_TASTE as int) by (nonlinear_arith);
                lemma_abs_mul_le(i as int + 1, MAX_TASTE as int, 20_000, 1_000_000);
                lemma_avg_in_range(self.attendees@[i as int].tastes@);
            }
            let a: i64 = self.attendees[i].taste_avg();
            acc = acc + (a as i128);
            i = i + 1;
        }
        proof {
            lemma_abs_mul_le(n as int, MAX_TASTE as int, 20_000, 1_000_000);
            vstd::arithmetic::div_mod::lemma_fundamental_div_mod(acc as int, n as int);
            lemma_div_shrinks(acc as int, n as int, MAX_TASTE as int);
        }
        let q: i128 = div_euclid_i128(acc, n as i128);
        q as i64
    }

    /// Mean of the attendees' largest tastes, rounded toward negative
    /// infinity.
    #[verifier::loop_isolation(false)]
    pub fn taste_max_avg(&self) -> (r: i64)
        requires
            self.valid(),
            self.natt() >= 1,
            forall|j: int| 0 <= j < self.natt() ==> #[trigger] self.attendees@[j].tastes@.len() >= 1,
        ensures
            r == max_sum(self, self.natt()) / self.natt(),
            -MAX_TASTE <= r <= MAX_TASTE,
    {
        let n: usize = self.attendees.len();
        let mut acc: i128 = 0;
        let mut i: usize = 0;
        while i < n
            invariant
                0 <= i <= n,
                acc == max_sum(self, i as int),
                -(i as int) * (MAX_TASTE as int) <= acc <= (i as int) * (MAX_TASTE as int),
            decreases n - i,
        {
            proof {
                assert(self.attendee_ok(i as int));
                assert((i as int + 1) * (MAX_TASTE as int) == (i as int) * (MAX_TASTE as int)
                    + MAX_TASTE as int) by (nonlinear_arith);
                lemma_abs_mul_le(i as int + 1, MAX_TASTE as int, 20_000, 1_000_000);
            }
            let a: i64 = self.attendees[i].taste_max();
            acc = acc + (a as i128);
            i = i + 1;
        }
        proof {
            lemma_abs_mul_le(n as int, MAX_TASTE as int, 20_000, 1_000_000);
            vstd::arithmetic::div_mod::lemma_fundamental_div_mod(acc as int, n as int);
            lemma_div_shrinks(acc as int, n as int, MAX_TASTE as int);
        }
        let q: i128 = div_euclid_i128(acc, n as i128);
        q as i64
    }

    /// The four sides of the stage rectangle.
    pub open spec fn stage_side(&self, k: int) -> (Point, Point) {
        let bl = self.stage_bottom_left;
        let br = Point { x: (bl.x + self.stage_width) as i64, y: bl.y };
        let tr = Point { x: (bl.x + self.stage_width) as i64, y: (bl.y + self.stage_height) as i64 };
        let tl = Point { x: bl.x, y: (bl.y + self.stage_height) as i64 };
        if k == 0 {
            (bl, br)
        } else if k == 1 {
            (br, tr)
        } else if k == 2 {
            (tr, tl)
        } else {
            (tl, bl)
        }
    }

    /// Numerator and denominator of side `k`'s squared distance to `pt`.
    pub open spec fn side_nd(&self, pt: Point, k: int) -> (int, int) {
        (
            seg_dist2_num(pt, self.stage_side(k).0, self.stage_side(k).1),
            seg_dist2_den(pt, self.stage_side(k).0, self.stage_side(k).1),
        )
    }

    /// The least of the four sides' squared-distance fractions, chosen by
    /// a fixed two-round tournament.
    pub open spec fn stage_min_nd(&self, pt: Point) -> (int, int) {
        let s0 = self.side_nd(pt, 0);
        let s1 = self.side_nd(pt, 1);
        let s2 = self.side_nd(pt, 2);
        let s3 = self.side_nd(pt, 3);
        let a = if s0.0 * s1.1 <= s1.0 * s0.1 {
            s0
        } else {
            s1
        };
        let b = if s2.0 * s3.1 <= s3.0 * s2.1 {
            s2
        } else {
            s3
        };
        if a.0 * b.1 <= b.0 * a.1 {
            a
        } else {
            b
        }
    }

    /// Exact squared distance from a point to the stage rectangle's
    /// boundary: the least of the four sides' squared distances, as a
    /// fraction.
    #[verifier::loop_isolation(false)]
    pub fn distance_to_stage_squared(&self, p: Point) -> (r: SegDist2)
        requires
            self.valid(),
            coord_ok(p),
        ensures
            r.num == self.stage_min_nd(p).0,
            r.den == self.stage_min_nd(p).1,
            0 < r.den <= 80_000_000_000,
            0 <= r.num <= 10_000_000_000_000_000_000_000,
            exists|k: int|
                0 <= k < 4 && r.num == seg_dist2_num(p, (#[trigger] self.stage_side(k)).0, self.stage_side(k).1)
                    && r.den == seg_dist2_den(p, self.stage_side(k).0, self.stage_side(k).1),
            forall|k: int|
                0 <= k < 4 ==> r.num * seg_dist2_den(p, (#[trigger] self.stage_side(k)).0, self.stage_side(k).1)
                    <= seg_dist2_num(p, self.stage_side(k).0, self.stage_side(k).1) * r.den,
    {
        let bl = self.stage_bottom_left;
        let br = Point { x: bl.x + self.stage_width, y: bl.y };
        let tr = Point { x: bl.x + self.stage_width, y: bl.y + self.stage_height };
        let tl = Point { x: bl.x, y: bl.y + self.stage_height };
        let d0 = point_to_segment_distance_squared(p, (bl, br));
        let d1 = point_to_segment_distance_squared(p, (br, tr));
        let d2v = point_to_segment_distance_squared(p, (tr, tl));
        let d3 = point_to_segment_distance_squared(p, (tl, bl));
        proof {
            lemma_abs_mul_le(d0.num as int, d1.den as int, 10_000_000_000_000_000_000_000, 80_000_000_000);
            lemma_abs_mul_le(d1.num as int, d0.den as int, 10_000_000_000_000_000_000_000, 80_000_000_000);
            lemma_abs_mul_le(d2v.num as int, d3.den as int, 10_000_000_000_000_000_000_000, 80_000_000_000);
            lemma_abs_mul_le(d3.num as int, d2v.den as int, 10_000_000_000_000_000_000_000, 80_000_000_000);
        }
        let a = if d0.num * d1.den <= d1.num * d0.den {
            d0
        } else {
            d1
        };
        let b = if d2v.num * d3.den <= d3.num * d2v.den {
            d2v
        } else {
            d3
        };
        proof {
            lemma_abs_mul_le(a.num as int, b.den as int, 10_000_000_000_000_000_000_000, 80_000_000_000);
            lemma_abs_mul_le(b.num as int, a.den as int, 10_000_000_000_000_000_000_000, 80_000_000_000);
        }
        let m = if a.num * b.den <= b.num * a.den {
            a
        } else {
            b
        };
        proof {
            assert(self.stage_side(0) == (bl, br));
            assert(self.stage_side(1) == (br, tr));
            assert(self.stage_side(2) == (tr, tl));
            assert(self.stage_side(3) == (tl, bl));
            assert forall|k: int|
                0 <= k < 4 implies m.num * seg_dist2_den(
                p,
                (#[trigger] self.stage_side(k)).0,
                self.stage_side(k).1,
            ) <= seg_dist2_num(p, self.stage_side(k).0, self.stage_side(k).1) * m.den by {
                lemma_frac_le_trans(
                    m.num as int,
                    m.den as int,
                    a.num as int,
                    a.den as int,
                    d0.num as int,
                    d0.den as int,
                );
                lemma_frac_le_trans(
                    m.num as int,
                    m.den as int,
                    a.num as int,
                    a.den as int,
                    d1.num as int,
                    d1.den as int,
                );
                lemma_frac_le_trans(
                    m.num as int,
                    m.den as int,
                    b.num as int,
                    b.den as int,
                    d2v.num as int,
                    d2v.den as int,
                );
                lemma_frac_le_trans(
                    m.num as int,
                    m.den as int,
                    b.num as int,
                    b.den as int,
                    d3.num as int,
                    d3.den as int,
                );
            }
        }
        m
    }
}

/// The mean of bounded values is bounded.
proof fn lemma_avg_in_range(tastes: Seq<i64>)
    requires
        tastes.len() >= 1,
        forall|t: int| 0 <= t < tastes.len() ==> -MAX_TASTE <= #[trigger] tastes[t] <= MAX_TASTE,
    ensures
        -MAX_TASTE <= taste_sum(tastes, tastes.len() as int) / (tastes.len() as int) <= MAX_TASTE,
{
    lemma_taste_sum_bound(tastes, tastes.len() as int);
    lemma_div_shrinks(
        taste_sum(tastes, tastes.len() as int),
        tastes.len() as int,
        MAX_TASTE as int,
    );
}

/// Sums of bounded values are bounded.
proof fn lemma_taste_sum_bound(tastes: Seq<i64>, upto: int)
    requires
        0 <= upto <= tastes.len(),
        forall|t: int| 0 <= t < tastes.len() ==> -MAX_TASTE <= #[trigger] tastes[t] <= MAX_TASTE,
    ensures
        -upto * (MAX_TASTE as int) <= taste_sum(tastes, upto) <= upto * (MAX_TASTE as int),
    decreases upto,
{
    if upto > 0 {
        lemma_taste_sum_bound(tastes, upto - 1);
        assert(upto * (MAX_TASTE as int) == (upto - 1) * (MAX_TASTE as int) + MAX_TASTE as int)
            by (nonlinear_arith);
    }
}

/// `|a| <= n * c` implies `|a / n| <= c` for positive `n`.
proof fn lemma_div_shrinks(a: int, n: int, c: int)
    requires
        n >= 1,
        c >= 0,
        -(n * c) <= a <= n * c,
    ensures
        -c <= a / n <= c,
{
    vstd::arithmetic::div_mod::lemma_fundamental_div_mod(a, n);
    let q = a / n;
    let r = a % n;
    if q > c {
        assert(n * q >= n * (c + 1)) by (nonlinear_arith)
            requires q >= c + 1 && n >= 1;
        assert(n * (c + 1) == n * c + n) by (nonlinear_arith);
    }
    if q < -c {
        assert(n * q <= n * (-c - 1)) by (nonlinear_arith)
            requires q <= -c - 1 && n >= 1;
        assert(n * (-c - 1) == -(n * c) - n) by (nonlinear_arith);
    }
}

/// Order on fractions with positive denominators, by cross
/// multiplication, is transitive.
proof fn lemma_frac_le_trans(na: int, da: int, nb: int, db: int, nc: int, dc: int)
    requires
        da > 0,
        db > 0,
        dc > 0,
        na * db <= nb * da,
        nb * dc <= nc * db,
    ensures
        na * dc <= nc * da,
{
    assert(na * dc <= nc * da) by (nonlinear_arith)
        requires da > 0 && db > 0 && dc > 0 && na * db <= nb * da && nb * dc <= nc * db;
}


/// One attendee's contribution to the instrument estimate:
/// `taste * 1e6 * den / num` of the squared stage distance, or zero when
/// the attendee touches the stage boundary.
pub open spec fn tentative_term(p: &Problem, inst: int, j: int) -> int {
    let nd = p.stage_min_nd(p.attendees@[j].pt());
    if nd.0 <= 0 {
        0
    } else {
        (p.attendees@[j].tastes@[inst] * 1_000_000 * nd.1) / nd.0
    }
}

/// The estimated impact of one instrument over attendees `0 .. upto`.
pub open spec fn tentative_impact(p: &Problem, inst: int, upto: int) -> int
    decreases upto,
{
    if upto <= 0 {
        0
    } else {
        tentative_impact(p, inst, upto - 1) + tentative_term(p, inst, upto - 1)
    }
}

/// The whole-problem estimate over musicians `0 .. upto`: negative
/// instruments count as muted, the rest at full volume.
pub open spec fn tentative_total(p: &Problem, upto: int) -> int
    decreases upto,
{
    if upto <= 0 {
        0
    } else {
        tentative_total(p, upto - 1) + 10 * (if tentative_impact(
            p,
            p.musicians@[upto - 1] as int,
            p.natt(),
        ) >= 0 {
            tentative_impact(p, p.musicians@[upto - 1] as int, p.natt())
        } else {
            0
        })
    }
}

impl Problem {
    /// An upper-bound style estimate of the reachable score: for each
    /// musician, the instrument's summed taste over the squared distance
    /// from each attendee to the stage boundary, ignoring occlusion, with
    /// negative instruments muted. In millionths, at full volume.
    #[verifier::loop_isolation(false)]
    pub fn tentative_score(&self) -> (r: i128)
        requires
            self.valid(),
        ensures
            r == tentative_total(self, self.nm()),
    {
        let nm: usize = self.musicians.len();
        let natt: usize = self.attendees.len();
        let mut total: i128 = 0;
        let mut i: usize = 0;
        while i < nm
            invariant
                0 <= i <= nm,
                total == tentative_total(self, i as int),
                -(i as int) * 7_922_816_251_426_433_759_354_395_033_600_000 <= total <= (i as int) * 7_922_816_251_426_433_759_354_395_033_600_000,
            decreases nm - i,
        {
            let inst: usize = self.musicians[i];
            let mut acc: i128 = 0;
            let mut j: usize = 0;
            while j < natt
                invariant
                    0 <= j <= natt,
                    acc == tentative_impact(self, inst as int, j as int),
                    -(j as int) * 0x1_0000_0000_0000_0000_0000_0000 <= acc <= (j as int)
                        * 0x1_0000_0000_0000_0000_0000_0000,
                decreases natt - j,
            {
                proof {
                    lemma_attendee_coord_ok(self, j as int);
                    assert((j as int + 1) * 0x1_0000_0000_0000_0000_0000_0000 == (j as int)
                        * 0x1_0000_0000_0000_0000_0000_0000 + 0x1_0000_0000_0000_0000_0000_0000)
                        by (nonlinear_arith);
                    assert((j as int + 1) * 0x1_0000_0000_0000_0000_0000_0000 <= 10_000
                        * 0x1_0000_0000_0000_0000_0000_0000int) by (nonlinear_arith)
                        requires 0 <= j as int && j as int + 1 <= 10_000;
                    assert(self.attendee_ok(j as int));
                }
                let a_pt: Point = self.attendees[j].point();
                let d = self.distance_to_stage_squared(a_pt);
                if d.num > 0 {
                    let t: i64 = self.attendees[j].tastes[inst];
                    proof {
                        lemma_abs_mul_le(t as int, 1_000_000, 1_000_000, 1_000_000);
                        lemma_abs_mul_le(
                            (t as int) * 1_000_000,
                            d.den as int,
                            1_000_000_000_000,
                            80_000_000_000,
                        );
                    }
                    let numer: i128 = (t as i128) * 1_000_000 * d.den;
                    proof {
                        assert((d.num as int) * 0x1_0000_0000_0000_0000_0000_0000
                            >= 0x1_0000_0000_0000_0000_0000_0000int) by (nonlinear_arith)
                            requires d.num as int >= 1;
                        lemma_div_shrinks(
                            numer as int,
                            d.num as int,
                            0x1_0000_0000_0000_0000_0000_0000,
                        );
                    }
                    let term: i128 = div_euclid_i128(numer, d.num);
                    acc = acc + term;
                } else {
                    proof {
                        assert(tentative_term(self, inst as int, j as int) == 0);
                    }
                }
                j = j + 1;
            }
            proof {
                assert((natt as int) * 0x1_0000_0000_0000_0000_0000_0000
                    <= 792_281_625_142_643_375_935_439_503_360_000int) by (nonlinear_arith)
                    requires natt as int <= 10_000;
            }
            if acc >= 0 {
                total = total + 10 * acc;
            }
            i = i + 1;
        }
        total
    }
}


/// How many of the first `upto` instrument assignments equal `v`.
pub open spec fn occ_count(s: Seq<usize>, v: usize, upto: int) -> nat
    decreases upto,
{
    if upto <= 0 {
        0
    } else {
        occ_count(s, v, upto - 1) + if s[upto - 1] == v {
            1nat
        } else {
            0nat
        }
    }
}

/// A count never exceeds the prefix length.
pub proof fn lemma_occ_le(s: Seq<usize>, v: usize, upto: int)
    requires
        upto >= 0,
    ensures
        occ_count(s, v, upto) <= upto,
    decreases upto,
{
    if upto > 0 {
        lemma_occ_le(s, v, upto - 1);
    }
}

/// How many musicians play each instrument.
#[verifier::loop_isolation(false)]
pub fn inst_cnt(musicians: &[usize]) -> (r: std::collections::HashMap<usize, usize>)
    ensures
        forall|v: usize|
            #[trigger] r@.contains_key(v) <==> occ_count(
                musicians@,
                v,
                musicians@.len() as int,
            ) > 0,
        forall|v: usize|
            #[trigger] r@.contains_key(v) ==> r@[v] == occ_count(
                musicians@,
                v,
                musicians@.len() as int,
            ),
{
    let n: usize = musicians.len();
    let mut cnt: std::collections::HashMap<usize, usize> = std::collections::HashMap::new();
    let mut i: usize = 0;
    while i < n
        invariant
            0 <= i <= n,
            n == musicians@.len(),
            forall|v: usize|
                #[trigger] cnt@.contains_key(v) <==> occ_count(musicians@, v, i as int) > 0,
            forall|v: usize|
                #[trigger] cnt@.contains_key(v) ==> cnt@[v] == occ_count(musicians@, v, i as int),
        decreases n - i,
    {
        let inst: usize = musicians[i];
        let c: usize = match cnt.get(&inst) {
            Some(c) => *c,
            None => 0,
        };
        proof {
            lemma_occ_le(musicians@, inst, i as int);
        }
        cnt.insert(inst, c + 1);
        i = i + 1;
    }
    cnt
}

} // verus!
