//! The incremental visibility/scoring engine.
//!
//! For every musician the engine keeps one occlusion counter per attendee
//! (how many occluders currently hide that attendee) and the musician's
//! unblocked-weighted score. Occlusion is decided by the exact integer
//! cone test of `geometry::cone_blocks`, so adding and removing a
//! blocker's contribution are exact inverses and the incrementally
//! maintained state provably equals a from-scratch rebuild.
//!
//! Scores are integers: a visible attendee contributes
//! `ceil(1_000_000 * taste / dist2)`, and the closeness factor `q` is kept
//! in millionths (`1_000_000` stands for `1.0`).

use vstd::prelude::*;
use crate::geometry::Point;
use crate::geometry::dist2;
use crate::geometry::coord_ok;
use crate::geometry::cone_blocks;
use crate::geometry::blocks_cone;
use crate::geometry::lemma_abs_mul_le;
use crate::intmath::ceil_of;
use crate::intmath::ceil_div;
use crate::intmath::lemma_ceil_of_bound;
use crate::intmath::sqrt_floor;
use crate::intmath::lemma_sqrt_floor;
use crate::intmath::isqrt;
use crate::problem::Problem;
use crate::problem::Pillar;
use crate::problem::Spec;
use crate::problem::BLOCK_RADIUS;
use crate::problem::MUSICIAN_RADIUS_2;
use crate::problem::MUSICIAN_RADIUS;
use crate::problem::MAX_MUSICIANS;
use crate::problem::MAX_ATTENDEES;
use crate::problem::MAX_PILLARS;
use crate::problem::MAX_TASTE;
use crate::geometry::MAX_COORD;
use crate::problem::lemma_attendee_far;
use crate::problem::lemma_attendee_coord_ok;
use crate::problem::lemma_on_stage_coord_ok;
use crate::solution::Solution;
use crate::solution::MAX_VOLUME;

verus! {

/// `1.0` of the closeness factor, in millionths.
pub const Q_ONE: i64 = 1_000_000;

/// Largest value `q` can reach: `Q_ONE + MAX_MUSICIANS * 100_000`.
pub const Q_MAX: i64 = 1_001_000_000;

/// Largest magnitude of one attendee's impact.
pub const IMPACT_MAX: i64 = 1_000_000_000_000;

/// Largest magnitude of a per-musician score: `MAX_ATTENDEES * IMPACT_MAX`.
pub const SCORE_MAX: i64 = 10_000_000_000_000_000;

/// Largest magnitude of one aggregate term: `Q_MAX * SCORE_MAX * 10`.
pub const TERM_MAX: i128 = 100_100_000_000_000_000_000_000_000;

/// Musician `k` (as a body of radius `BLOCK_RADIUS`) hides attendee
/// position `a` from musician `i`.
pub open spec fn mus_blocks(places: Seq<Point>, k: int, i: int, a: Point) -> bool {
    k != i && cone_blocks(places[i], places[k], BLOCK_RADIUS as int, a)
}

/// How many of the musicians `0 .. upto` (other than `i`) hide `a` from `i`.
pub open spec fn count_mus(places: Seq<Point>, i: int, a: Point, upto: int) -> nat
    decreases upto,
{
    if upto <= 0 {
        0
    } else {
        count_mus(places, i, a, upto - 1) + if mus_blocks(places, upto - 1, i, a) {
            1nat
        } else {
            0nat
        }
    }
}

/// A pillar hides `a` from a musician at `mpos`: the cone test, plus the
/// depth test — a pillar only occludes attendees beyond its own distance.
pub open spec fn pil_blocks(pil: Pillar, mpos: Point, a: Point) -> bool {
    cone_blocks(mpos, pil.center, pil.radius as int, a) && dist2(mpos, a) > dist2(
        mpos,
        pil.center,
    )
}

/// How many of the pillars `0 .. upto` hide `a` from `mpos`.
pub open spec fn count_pil(pillars: Seq<Pillar>, mpos: Point, a: Point, upto: int) -> nat
    decreases upto,
{
    if upto <= 0 {
        0
    } else {
        count_pil(pillars, mpos, a, upto - 1) + if pil_blocks(pillars[upto - 1], mpos, a) {
            1nat
        } else {
            0nat
        }
    }
}

/// The canonical occlusion counter of attendee `j` for musician `i`: the
/// number of occluders currently between them, as a function of the
/// placement alone.
pub open spec fn nblock_spec(p: &Problem, places: Seq<Point>, full: bool, i: int, j: int) -> nat {
    count_mus(places, i, p.attendees@[j].pt(), places.len() as int) + if full {
        count_pil(p.pillars@, places[i], p.attendees@[j].pt(), p.npil())
    } else {
        0nat
    }
}

/// Impact of attendee `j` on musician `i` standing at `pos`:
/// `ceil(1_000_000 * taste / dist2)`.
pub open spec fn impact_of(p: &Problem, i: int, j: int, pos: Point) -> int {
    ceil_of(
        1_000_000 * p.attendees@[j].tastes@[p.musicians@[i] as int],
        dist2(pos, p.attendees@[j].pt()),
    )
}

/// Per-musician score over the stored counters: the sum of the impacts of
/// the attendees whose counter is zero, over attendees `0 .. upto`.
pub open spec fn score_upto(
    p: &Problem,
    i: int,
    pos: Point,
    counters: Seq<u32>,
    upto: int,
) -> int
    decreases upto,
{
    if upto <= 0 {
        0
    } else {
        score_upto(p, i, pos, counters, upto - 1) + if counters[upto - 1] == 0 {
            impact_of(p, i, upto - 1, pos)
        } else {
            0
        }
    }
}

/// `floor(1_000_000 / sqrt(d2v))`: one same-instrument neighbour's
/// contribution to the closeness factor, in millionths.
pub open spec fn inv_q(d2v: int) -> int {
    sqrt_floor(1_000_000_000_000int / d2v)
}

/// Closeness contribution of musician `k` to musician `i`.
pub open spec fn q_term(p: &Problem, places: Seq<Point>, i: int, k: int) -> int {
    if k != i && p.musicians@[k] == p.musicians@[i] {
        inv_q(dist2(places[i], places[k]))
    } else {
        0
    }
}

/// Sum of the closeness contributions of musicians `0 .. upto` to `i`.
pub open spec fn q_upto(p: &Problem, places: Seq<Point>, i: int, upto: int) -> int
    decreases upto,
{
    if upto <= 0 {
        0
    } else {
        q_upto(p, places, i, upto - 1) + q_term(p, places, i, upto - 1)
    }
}

/// The canonical closeness factor of musician `i`, in millionths. It is
/// `1.0` in the lightning variant.
pub open spec fn q_spec(p: &Problem, places: Seq<Point>, full: bool, i: int) -> int {
    Q_ONE + if full {
        q_upto(p, places, i, places.len() as int)
    } else {
        0
    }
}

/// One musician's term of the aggregate score. With explicit volumes it is
/// `q * score * volume`; in trial mode a negative-contributing musician
/// counts as muted and the rest play at full volume.
pub open spec fn total_term(qv: int, sv: int, vv: int, withv: bool) -> int {
    if withv {
        qv * sv * vv
    } else if qv * sv >= 0 {
        10 * (qv * sv)
    } else {
        0
    }
}

/// Aggregate score over musicians `0 .. upto`, in millionths.
pub open spec fn total_upto(
    q: Seq<i64>,
    s: Seq<i64>,
    v: Seq<i64>,
    withv: bool,
    upto: int,
) -> int
    decreases upto,
{
    if upto <= 0 {
        0
    } else {
        total_upto(q, s, v, withv, upto - 1) + total_term(
            q[upto - 1] as int,
            s[upto - 1] as int,
            v[upto - 1] as int,
            withv,
        )
    }
}

// ------------------------------------------------------------------
// Lemmas about the model
// ------------------------------------------------------------------

/// A blocker count never exceeds the number of candidate blockers.
pub proof fn lemma_count_mus_le(places: Seq<Point>, i: int, a: Point, upto: int)
    requires
        upto >= 0,
    ensures
        count_mus(places, i, a, upto) <= upto,
    decreases upto,
{
    if upto > 0 {
        lemma_count_mus_le(places, i, a, upto - 1);
    }
}

/// A pillar count never exceeds the number of pillars.
pub proof fn lemma_count_pil_le(pillars: Seq<Pillar>, mpos: Point, a: Point, upto: int)
    requires
        upto >= 0,
    ensures
        count_pil(pillars, mpos, a, upto) <= upto,
    decreases upto,
{
    if upto > 0 {
        lemma_count_pil_le(pillars, mpos, a, upto - 1);
    }
}

/// Changing the position of one musician `i` shifts another musician's
/// blocker count by exactly the change in `i`'s own contribution.
pub proof fn lemma_count_mus_update(
    pl1: Seq<Point>,
    pl2: Seq<Point>,
    i: int,
    j: int,
    a: Point,
    upto: int,
)
    requires
        0 <= i < pl1.len(),
        pl2 == pl1.update(i, pl2[i]),
        0 <= j < pl1.len(),
        j != i,
        upto <= pl1.len(),
    ensures
        count_mus(pl2, j, a, upto) == count_mus(pl1, j, a, upto) - (if i < upto && mus_blocks(
            pl1,
            i,
            j,
            a,
        ) {
            1int
        } else {
            0int
        }) + (if i < upto && mus_blocks(pl2, i, j, a) {
            1int
        } else {
            0int
        }),
    decreases upto,
{
    if upto > 0 {
        lemma_count_mus_update(pl1, pl2, i, j, a, upto - 1);
        assert(pl2[j] == pl1[j]);
        if upto - 1 != i {
            assert(pl2[upto - 1] == pl1[upto - 1]);
            assert(mus_blocks(pl2, upto - 1, j, a) == mus_blocks(pl1, upto - 1, j, a));
        }
    }
}

/// Updating one counter shifts the per-musician score by the change in
/// that attendee's term.
pub proof fn lemma_score_upto_update(
    p: &Problem,
    i: int,
    pos: Point,
    c1: Seq<u32>,
    c2: Seq<u32>,
    j: int,
    upto: int,
)
    requires
        0 <= j < c1.len(),
        c2 == c1.update(j, c2[j]),
        upto <= c1.len(),
    ensures
        score_upto(p, i, pos, c2, upto) == score_upto(p, i, pos, c1, upto) - (if j < upto && c1[j]
            == 0 {
            impact_of(p, i, j, pos)
        } else {
            0int
        }) + (if j < upto && c2[j] == 0 {
            impact_of(p, i, j, pos)
        } else {
            0int
        }),
    decreases upto,
{
    if upto > 0 {
        lemma_score_upto_update(p, i, pos, c1, c2, j, upto - 1);
    }
}

/// The per-musician score only reads counters below `upto`.
pub proof fn lemma_score_upto_ext(
    p: &Problem,
    i: int,
    pos: Point,
    c1: Seq<u32>,
    c2: Seq<u32>,
    upto: int,
)
    requires
        forall|j: int| 0 <= j < upto ==> c1[j] == c2[j],
    ensures
        score_upto(p, i, pos, c1, upto) == score_upto(p, i, pos, c2, upto),
    decreases upto,
{
    if upto > 0 {
        lemma_score_upto_ext(p, i, pos, c1, c2, upto - 1);
    }
}

/// Bound on one impact: tastes are bounded and distances positive.
pub proof fn lemma_impact_bound(p: &Problem, i: int, j: int, pos: Point)
    requires
        p.valid(),
        0 <= i < p.nm(),
        0 <= j < p.natt(),
        dist2(pos, p.attendees@[j].pt()) >= 1,
    ensures
        -IMPACT_MAX <= impact_of(p, i, j, pos) <= IMPACT_MAX,
{
    assert(p.attendee_ok(j));
    let t = p.attendees@[j].tastes@[p.musicians@[i] as int];
    assert(-1_000_000 <= t <= 1_000_000);
    assert(-IMPACT_MAX <= 1_000_000 * t <= IMPACT_MAX) by (nonlinear_arith)
        requires -1_000_000 <= t <= 1_000_000;
    lemma_ceil_of_bound(1_000_000 * t, dist2(pos, p.attendees@[j].pt()));
}

/// Bound on a per-musician score.
pub proof fn lemma_score_upto_bound(
    p: &Problem,
    i: int,
    pos: Point,
    counters: Seq<u32>,
    upto: int,
)
    requires
        p.valid(),
        0 <= i < p.nm(),
        0 <= upto <= p.natt(),
        forall|j: int| 0 <= j < p.natt() ==> dist2(pos, #[trigger] p.attendees@[j].pt()) >= 1,
    ensures
        -upto * IMPACT_MAX <= score_upto(p, i, pos, counters, upto) <= upto * IMPACT_MAX,
    decreases upto,
{
    if upto > 0 {
        lemma_score_upto_bound(p, i, pos, counters, upto - 1);
        lemma_impact_bound(p, i, upto - 1, pos);
    }
}

/// `inv_q` of a lawful separation is at most `100_000` (a tenth of `1.0`).
pub proof fn lemma_inv_q_bound(d2v: int)
    requires
        d2v >= 101,
    ensures
        0 <= inv_q(d2v) <= 100_000,
{
    let x = 1_000_000_000_000int / d2v;
    vstd::arithmetic::div_mod::lemma_div_is_ordered_by_denominator(1_000_000_000_000int, 101, d2v);
    assert(x <= 1_000_000_000_000int / 101);
    vstd::arithmetic::div_mod::lemma_div_pos_is_pos(1_000_000_000_000int, d2v);
    lemma_sqrt_floor(x);
    let s = sqrt_floor(x);
    if s > 100_000 {
        assert(s * s > 10_000_000_000) by (nonlinear_arith)
            requires s > 100_000;
    }
}

/// Bound on a closeness sum under lawful separations.
pub proof fn lemma_q_upto_bound(p: &Problem, places: Seq<Point>, i: int, upto: int)
    requires
        0 <= upto <= places.len(),
        0 <= i < places.len(),
        forall|k: int|
            0 <= k < places.len() && k != i ==> dist2(places[i], #[trigger] places[k]) >= 101,
    ensures
        0 <= q_upto(p, places, i, upto) <= upto * 100_000,
    decreases upto,
{
    if upto > 0 {
        lemma_q_upto_bound(p, places, i, upto - 1);
        if upto - 1 != i && p.musicians@[upto - 1] == p.musicians@[i] {
            lemma_inv_q_bound(dist2(places[i], places[upto - 1]));
        }
    }
}

/// Changing one position shifts another musician's closeness sum by the
/// change in that musician's term.
pub proof fn lemma_q_upto_update(
    p: &Problem,
    pl1: Seq<Point>,
    pl2: Seq<Point>,
    i: int,
    j: int,
    upto: int,
)
    requires
        0 <= i < pl1.len(),
        pl2 == pl1.update(i, pl2[i]),
        0 <= j < pl1.len(),
        j != i,
        upto <= pl1.len(),
    ensures
        q_upto(p, pl2, j, upto) == q_upto(p, pl1, j, upto) - (if i < upto {
            q_term(p, pl1, j, i)
        } else {
            0int
        }) + (if i < upto {
            q_term(p, pl2, j, i)
        } else {
            0int
        }),
    decreases upto,
{
    if upto > 0 {
        lemma_q_upto_update(p, pl1, pl2, i, j, upto - 1);
        assert(pl2[j] == pl1[j]);
        if upto - 1 != i {
            assert(pl2[upto - 1] == pl1[upto - 1]);
            assert(q_term(p, pl2, j, upto - 1) == q_term(p, pl1, j, upto - 1));
        }
    }
}

/// The aggregate score only reads entries below `upto`.
pub proof fn lemma_total_upto_ext(
    q1: Seq<i64>,
    s1: Seq<i64>,
    v1: Seq<i64>,
    q2: Seq<i64>,
    s2: Seq<i64>,
    v2: Seq<i64>,
    withv: bool,
    upto: int,
)
    requires
        forall|j: int| 0 <= j < upto ==> q1[j] == q2[j] && s1[j] == s2[j] && v1[j] == v2[j],
    ensures
        total_upto(q1, s1, v1, withv, upto) == total_upto(q2, s2, v2, withv, upto),
    decreases upto,
{
    if upto > 0 {
        lemma_total_upto_ext(q1, s1, v1, q2, s2, v2, withv, upto - 1);
    }
}

/// Bound on one aggregate term under the engine's numeric invariants.
pub proof fn lemma_total_term_bound(qv: int, sv: int, vv: int, withv: bool)
    requires
        -Q_MAX <= qv <= Q_MAX,
        -SCORE_MAX <= sv <= SCORE_MAX,
        0 <= vv <= MAX_VOLUME,
    ensures
        -(TERM_MAX as int) <= total_term(qv, sv, vv, withv) <= TERM_MAX as int,
{
    let bound = (Q_MAX as int) * (SCORE_MAX as int);
    lemma_abs_mul_le(qv, sv, Q_MAX as int, SCORE_MAX as int);
    assert(bound * 10 == TERM_MAX as int) by (nonlinear_arith)
        requires bound == (Q_MAX as int) * (SCORE_MAX as int) && Q_MAX == 1_001_000_000i64
            && SCORE_MAX == 10_000_000_000_000_000i64 && TERM_MAX
            == 100_100_000_000_000_000_000_000_000i128;
    lemma_abs_mul_le(qv * sv, vv, bound, 10);
}

// ------------------------------------------------------------------
// The engine
// ------------------------------------------------------------------

/// The mutable state of one optimization run.
#[derive(Debug)]
pub struct Engine {
    /// Full-variant flag: pillars occlude and the closeness factor varies.
    pub full: bool,
    /// Current musician positions.
    pub place: Vec<Point>,
    /// Closeness factor per musician, in millionths.
    pub q: Vec<i64>,
    /// Occlusion counters: `nblock[i][j]` occluders hide attendee `j`
    /// from musician `i`.
    pub nblock: Vec<Vec<u32>>,
    /// Unblocked-weighted score per musician.
    pub scores: Vec<i64>,
    /// Volumes of the initial solution (used by the with-volumes total).
    pub volumes: Vec<i64>,
    /// Whether `score` was last computed with explicit volumes.
    pub with_volumes: bool,
    /// Aggregate score, in millionths.
    pub score: i128,
}

impl Engine {
    pub open spec fn shape_ok(&self, p: &Problem) -> bool {
        &&& self.place@.len() == p.nm()
        &&& self.q@.len() == p.nm()
        &&& self.nblock@.len() == p.nm()
        &&& (forall|i: int| 0 <= i < p.nm() ==> (#[trigger] self.nblock@[i])@.len() == p.natt())
        &&& self.scores@.len() == p.nm()
        &&& self.volumes@.len() == p.nm()
        &&& (forall|i: int| 0 <= i < p.nm() ==> 0 <= #[trigger] self.volumes@[i] <= MAX_VOLUME)
    }

    /// Every musician on the shrunk stage, all pairs lawfully separated.
    pub open spec fn placement_ok(&self, p: &Problem) -> bool {
        &&& (forall|i: int| 0 <= i < p.nm() ==> p.on_stage_spec(#[trigger] self.place@[i]))
        &&& (forall|i: int, k: int|
            0 <= i < p.nm() && 0 <= k < p.nm() && i != k ==> dist2(
                #[trigger] self.place@[i],
                #[trigger] self.place@[k],
            ) > MUSICIAN_RADIUS_2)
    }

    /// Row `i` of the counters equals the canonical counts.
    pub open spec fn row_ok(&self, p: &Problem, i: int) -> bool {
        forall|j: int|
            0 <= j < p.natt() ==> (#[trigger] self.nblock@[i]@[j]) as nat == nblock_spec(
                p,
                self.place@,
                self.full,
                i,
                j,
            )
    }

    pub open spec fn counters_ok(&self, p: &Problem) -> bool {
        forall|i: int| 0 <= i < p.nm() ==> self.row_ok(p, i)
    }

    /// `scores[i]` is the sum of the impacts of the attendees whose stored
    /// counter is zero.
    pub open spec fn score_linked(&self, p: &Problem, i: int) -> bool {
        self.scores@[i] == score_upto(p, i, self.place@[i], self.nblock@[i]@, p.natt())
    }

    pub open spec fn scores_ok(&self, p: &Problem) -> bool {
        forall|i: int| 0 <= i < p.nm() ==> self.score_linked(p, i)
    }

    pub open spec fn q_ok(&self, p: &Problem) -> bool {
        forall|i: int|
            0 <= i < p.nm() ==> #[trigger] self.q@[i] == q_spec(p, self.place@, self.full, i)
    }

    pub open spec fn total_ok(&self, p: &Problem) -> bool {
        self.score == total_upto(
            self.q@,
            self.scores@,
            self.volumes@,
            self.with_volumes,
            p.nm(),
        )
    }

    /// The engine invariant: every stored quantity equals its canonical
    /// value, a function of the placement alone.
    pub open spec fn wf(&self, p: &Problem) -> bool {
        &&& p.valid()
        &&& self.shape_ok(p)
        &&& self.placement_ok(p)
        &&& self.counters_ok(p)
        &&& self.scores_ok(p)
        &&& self.q_ok(p)
        &&& self.total_ok(p)
    }

    pub fn is_full_round(&self) -> (r: bool)
        ensures
            r == self.full,
    {
        self.full
    }
}

/// Under `placement_ok` every stored score and closeness factor is bounded.
pub proof fn lemma_wf_bounds(e: &Engine, p: &Problem)
    requires
        p.valid(),
        e.shape_ok(p),
        e.placement_ok(p),
        e.scores_ok(p),
        e.q_ok(p),
    ensures
        forall|i: int| 0 <= i < p.nm() ==> -SCORE_MAX <= #[trigger] e.scores@[i] <= SCORE_MAX,
        forall|i: int| 0 <= i < p.nm() ==> Q_ONE <= #[trigger] e.q@[i] <= Q_MAX,
{
    assert forall|i: int| 0 <= i < p.nm() implies -SCORE_MAX <= #[trigger] e.scores@[i]
        <= SCORE_MAX by {
        assert forall|j: int| 0 <= j < p.natt() implies dist2(
            e.place@[i],
            #[trigger] p.attendees@[j].pt(),
        ) >= 1 by {
            lemma_attendee_far(p, e.place@[i], j);
        }
        assert(e.score_linked(p, i));
        lemma_score_upto_bound(p, i, e.place@[i], e.nblock@[i]@, p.natt());
        assert(p.natt() * (IMPACT_MAX as int) <= SCORE_MAX as int) by (nonlinear_arith)
            requires 0 <= p.natt() <= 10_000 && IMPACT_MAX == 1_000_000_000_000i64 && SCORE_MAX
                == 10_000_000_000_000_000i64;
    }
    assert forall|i: int| 0 <= i < p.nm() implies Q_ONE <= #[trigger] e.q@[i] <= Q_MAX by {
        if e.full {
            assert forall|k: int|
                0 <= k < e.place@.len() && k != i implies dist2(
                e.place@[i],
                #[trigger] e.place@[k],
            ) >= 101 by {}
            lemma_q_upto_bound(p, e.place@, i, e.place@.len() as int);
            assert(e.place@.len() * 100_000 <= 1_000_000_000int) by (nonlinear_arith)
                requires e.place@.len() <= 10_000;
        }
    }
}

/// Impact of attendee `j` on musician `i` at `pos`, executable.
pub fn impact(p: &Problem, i: usize, j: usize, pos: Point) -> (r: i64)
    requires
        p.valid(),
        i < p.nm(),
        j < p.natt(),
        p.on_stage_spec(pos),
    ensures
        r == impact_of(p, i as int, j as int, pos),
        -IMPACT_MAX <= r <= IMPACT_MAX,
{
    proof {
        lemma_attendee_far(p, pos, j as int);
        lemma_attendee_coord_ok(p, j as int);
        lemma_on_stage_coord_ok(p, pos);
        lemma_impact_bound(p, i as int, j as int, pos);
        assert(p.attendee_ok(j as int));
    }
    let a_pt = p.attendees[j].point();
    let d2v: i64 = pos.distance_squared(a_pt);
    let inst: usize = p.musicians[i];
    let t: i64 = p.attendees[j].tastes[inst];
    proof {
        assert(-1_000_000_000_000 <= 1_000_000 * t <= 1_000_000_000_000) by (nonlinear_arith)
            requires -1_000_000 <= t <= 1_000_000;
    }
    ceil_div(1_000_000 * t, d2v)
}

/// `floor(1_000_000 / sqrt(d2v))`, executable.
pub fn inv_q_exec(d2v: i64) -> (r: i64)
    requires
        1 <= d2v,
    ensures
        r == inv_q(d2v as int),
        0 <= r <= 1_000_000,
{
    let x: u64 = 1_000_000_000_000u64 / (d2v as u64);
    let s: u64 = isqrt(x);
    proof {
        if s > 1_000_000 {
            assert((s as int) * (s as int) > 1_000_000_000_000) by (nonlinear_arith)
                requires s as int > 1_000_000;
        }
    }
    s as i64
}

impl Engine {
    /// Recompute the aggregate score from the per-musician state. With
    /// `use_volumes` the initial volumes weight each term; otherwise the
    /// trial rule applies (negative contributors muted, the rest at 10).
    #[verifier::loop_isolation(false)]
    pub fn update_score(&mut self, p: &Problem, use_volumes: bool)
        requires
            p.valid(),
            old(self).shape_ok(p),
            forall|i: int|
                0 <= i < p.nm() ==> -SCORE_MAX <= #[trigger] old(self).scores@[i] <= SCORE_MAX,
            forall|i: int| 0 <= i < p.nm() ==> -Q_MAX <= #[trigger] old(self).q@[i] <= Q_MAX,
        ensures
            final(self).full == old(self).full,
            final(self).place@ == old(self).place@,
            final(self).q@ == old(self).q@,
            final(self).nblock@ == old(self).nblock@,
            final(self).scores@ == old(self).scores@,
            final(self).volumes@ == old(self).volumes@,
            final(self).with_volumes == use_volumes,
            final(self).score == total_upto(
                old(self).q@,
                old(self).scores@,
                old(self).volumes@,
                use_volumes,
                p.nm(),
            ),
    {
        let nm: usize = self.place.len();
        let mut acc: i128 = 0;
        let mut i: usize = 0;
        while i < nm
            invariant
                p.valid(),
                self == old(self),
                nm == p.nm(),
                self.shape_ok(p),
                forall|k: int|
                    0 <= k < p.nm() ==> -SCORE_MAX <= #[trigger] self.scores@[k] <= SCORE_MAX,
                forall|k: int| 0 <= k < p.nm() ==> -Q_MAX <= #[trigger] self.q@[k] <= Q_MAX,
                0 <= i <= nm,
                acc == total_upto(self.q@, self.scores@, self.volumes@, use_volumes, i as int),
            decreases nm - i,
        {
            proof {
                lemma_total_upto_bound(
                    self.q@,
                    self.scores@,
                    self.volumes@,
                    use_volumes,
                    i as int,
                );
                lemma_total_term_bound(
                    self.q@[i as int] as int,
                    self.scores@[i as int] as int,
                    self.volumes@[i as int] as int,
                    use_volumes,
                );
                lemma_abs_mul_le(
                    self.q@[i as int] as int,
                    self.scores@[i as int] as int,
                    Q_MAX as int,
                    SCORE_MAX as int,
                );
                assert((Q_MAX as int) * (SCORE_MAX as int) * 10 == TERM_MAX as int)
                    by (nonlinear_arith)
                    requires Q_MAX == 1_001_000_000i64 && SCORE_MAX == 10_000_000_000_000_000i64
                        && TERM_MAX == 100_100_000_000_000_000_000_000_000i128;
                assert((i as int) * (TERM_MAX as int) <= 10_000 * (TERM_MAX as int)
                    && -(10_000 * (TERM_MAX as int)) <= -((i as int) * (TERM_MAX as int)))
                    by (nonlinear_arith)
                    requires 0 <= i as int <= 10_000 && TERM_MAX
                        == 100_100_000_000_000_000_000_000_000i128;
            }
            let qs: i128 = (self.q[i] as i128) * (self.scores[i] as i128);
            let term: i128 = if use_volumes {
                proof {
                    lemma_abs_mul_le(
                        qs as int,
                        self.volumes@[i as int] as int,
                        (Q_MAX as int) * (SCORE_MAX as int),
                        10,
                    );
                }
                qs * (self.volumes[i] as i128)
            } else if qs >= 0 {
                qs * 10
            } else {
                0
            };
            proof {
                assert((i as int + 1) * (TERM_MAX as int) <= 10_000 * (TERM_MAX as int)
                    && (i as int + 1) * (TERM_MAX as int) == (i as int) * (TERM_MAX as int)
                    + TERM_MAX as int) by (nonlinear_arith)
                    requires 0 <= i as int && i as int + 1 <= 10_000 && TERM_MAX
                        == 100_100_000_000_000_000_000_000_000i128;
            }
            acc = acc + term;
            i = i + 1;
        }
        self.score = acc;
        self.with_volumes = use_volumes;
    }

    /// Recompute every closeness factor from scratch. In the lightning
    /// variant all factors stay at `1.0`.
    #[verifier::loop_isolation(false)]
    pub fn cal_q(&mut self, p: &Problem)
        requires
            p.valid(),
            old(self).shape_ok(p),
            old(self).placement_ok(p),
            forall|i: int| 0 <= i < p.nm() ==> #[trigger] old(self).q@[i] == Q_ONE,
        ensures
            final(self).full == old(self).full,
            final(self).place@ == old(self).place@,
            final(self).nblock@ == old(self).nblock@,
            final(self).scores@ == old(self).scores@,
            final(self).volumes@ == old(self).volumes@,
            final(self).with_volumes == old(self).with_volumes,
            final(self).score == old(self).score,
            final(self).q@.len() == old(self).q@.len(),
            final(self).q_ok(p),
    {
        let nm: usize = self.place.len();
        if !self.is_full_round() {
            return ;
        }
        let mut i: usize = 0;
        while i < nm
            invariant
                p.valid(),
                self.full == old(self).full,
                self.full,
                self.place@ == old(self).place@,
                self.nblock@ == old(self).nblock@,
                self.scores@ == old(self).scores@,
                self.volumes@ == old(self).volumes@,
                self.with_volumes == old(self).with_volumes,
                self.score == old(self).score,
                nm == p.nm(),
                self.shape_ok(p),
                self.placement_ok(p),
                0 <= i <= nm,
                forall|k: int|
                    0 <= k < i ==> #[trigger] self.q@[k] == q_spec(p, self.place@, true, k),
                forall|k: int| i <= k < nm ==> #[trigger] self.q@[k] == Q_ONE,
            decreases nm - i,
        {
            let mut j: usize = 0;
            let mut qi: i64 = Q_ONE;
            while j < nm
                invariant
                    p.valid(),
                    self.shape_ok(p),
                    self.placement_ok(p),
                    nm == p.nm(),
                    0 <= i < nm,
                    0 <= j <= nm,
                    qi == Q_ONE + q_upto(p, self.place@, i as int, j as int),
                decreases nm - j,
            {
                proof {
                    lemma_q_upto_bound(p, self.place@, i as int, j as int);
                    assert((j as int) * 100_000 <= 1_000_000_000int) by (nonlinear_arith)
                        requires j as int <= 10_000;
                }
                if i != j && p.musicians[i] == p.musicians[j] {
                    proof {
                        lemma_on_stage_coord_ok(p, self.place@[i as int]);
                        lemma_on_stage_coord_ok(p, self.place@[j as int]);
                        lemma_inv_q_bound(dist2(self.place@[i as int], self.place@[j as int]));
                    }
                    let d2v: i64 = self.place[i].distance_squared(self.place[j]);
                    qi = qi + inv_q_exec(d2v);
                }
                j = j + 1;
            }
            self.q[i] = qi;
            i = i + 1;
        }
    }
}

impl Engine {
    /// Apply musician `blocker`'s occluding contribution to musician
    /// `row`'s counters: every attendee hidden by `blocker` has its
    /// counter raised by one, and an attendee hidden for the first time
    /// has its impact removed from `scores[row]`.
    #[verifier::loop_isolation(false)]
    pub fn add_blocks(&mut self, p: &Problem, row: usize, blocker: usize)
        requires
            p.valid(),
            old(self).shape_ok(p),
            old(self).placement_ok(p),
            row < p.nm(),
            blocker < p.nm(),
            row != blocker,
            forall|j: int| 0 <= j < p.natt() ==> #[trigger] old(self).nblock@[row as int]@[j] <= 100_000,
            old(self).score_linked(p, row as int),
        ensures
            final(self).full == old(self).full,
            final(self).place@ == old(self).place@,
            final(self).q@ == old(self).q@,
            final(self).volumes@ == old(self).volumes@,
            final(self).with_volumes == old(self).with_volumes,
            final(self).score == old(self).score,
            final(self).nblock@.len() == old(self).nblock@.len(),
            final(self).nblock@[row as int]@.len() == old(self).nblock@[row as int]@.len(),
            final(self).scores@.len() == old(self).scores@.len(),
            forall|r: int|
                0 <= r < old(self).nblock@.len() && r != row as int
                    ==> final(self).nblock@[r] == old(self).nblock@[r],
            forall|r: int|
                0 <= r < old(self).scores@.len() && r != row as int
                    ==> final(self).scores@[r] == old(self).scores@[r],
            forall|j: int|
                0 <= j < p.natt() ==> #[trigger] final(self).nblock@[row as int]@[j]
                    == old(self).nblock@[row as int]@[j] + (if mus_blocks(
                    old(self).place@,
                    blocker as int,
                    row as int,
                    p.attendees@[j].pt(),
                ) {
                    1u32
                } else {
                    0u32
                }),
            final(self).score_linked(p, row as int),
    {
        let natt: usize = p.attendees.len();
        let pos: Point = self.place[row];
        let bpos: Point = self.place[blocker];
        proof {
            lemma_on_stage_coord_ok(p, pos);
            lemma_on_stage_coord_ok(p, bpos);
        }
        let mut j: usize = 0;
        while j < natt
            invariant
                0 <= j <= natt,
                self.shape_ok(p),
                self.place@ == old(self).place@,
                self.q@ == old(self).q@,
                self.volumes@ == old(self).volumes@,
                self.full == old(self).full,
                self.with_volumes == old(self).with_volumes,
                self.score == old(self).score,
                self.nblock@.len() == old(self).nblock@.len(),
                self.scores@.len() == old(self).scores@.len(),
                forall|r: int|
                    0 <= r < old(self).nblock@.len() && r != row as int
                        ==> self.nblock@[r] == old(self).nblock@[r],
                forall|r: int|
                    0 <= r < old(self).scores@.len() && r != row as int
                        ==> self.scores@[r] == old(self).scores@[r],
                forall|jj: int|
                    0 <= jj < j ==> #[trigger] self.nblock@[row as int]@[jj]
                        == old(self).nblock@[row as int]@[jj] + (if mus_blocks(
                        old(self).place@,
                        blocker as int,
                        row as int,
                        p.attendees@[jj].pt(),
                    ) {
                        1u32
                    } else {
                        0u32
                    }),
                forall|jj: int|
                    j <= jj < p.natt() ==> #[trigger] self.nblock@[row as int]@[jj]
                        == old(self).nblock@[row as int]@[jj],
                self.score_linked(p, row as int),
            decreases natt - j,
        {
            proof {
                lemma_attendee_coord_ok(p, j as int);
            }
            let apt: Point = p.attendees[j].point();
            let blocked: bool = blocks_cone(pos, bpos, BLOCK_RADIUS, apt);
            if blocked {
                let ghost c_before = self.nblock@[row as int]@;
                let old_c: u32 = self.nblock[row][j];
                if old_c == 0 {
                    proof {
                        assert forall|jj: int|
                            0 <= jj < p.natt() implies dist2(
                            pos,
                            #[trigger] p.attendees@[jj].pt(),
                        ) >= 1 by {
                            lemma_attendee_far(p, pos, jj);
                        }
                        lemma_score_upto_bound(p, row as int, pos, c_before, p.natt());
                        lemma_impact_bound(p, row as int, j as int, pos);
                        assert(p.natt() * (IMPACT_MAX as int) <= SCORE_MAX as int)
                            by (nonlinear_arith)
                            requires 0 <= p.natt() <= 10_000 && IMPACT_MAX
                                == 1_000_000_000_000i64 && SCORE_MAX
                                == 10_000_000_000_000_000i64;
                    }
                    let im: i64 = impact(p, row, j, pos);
                    self.scores[row] = self.scores[row] - im;
                }
                self.nblock[row][j] = old_c + 1;
                proof {
                    lemma_score_upto_update(
                        p,
                        row as int,
                        pos,
                        c_before,
                        self.nblock@[row as int]@,
                        j as int,
                        p.natt(),
                    );
                }
            }
            j = j + 1;
        }
    }

    /// Retract musician `blocker`'s occluding contribution from musician
    /// `row`'s counters: the exact inverse of `add_blocks`. An attendee
    /// whose counter returns to zero has its impact restored.
    #[verifier::loop_isolation(false)]
    pub fn rem_blocks(&mut self, p: &Problem, row: usize, blocker: usize)
        requires
            p.valid(),
            old(self).shape_ok(p),
            old(self).placement_ok(p),
            row < p.nm(),
            blocker < p.nm(),
            row != blocker,
            forall|j: int| 0 <= j < p.natt() ==> #[trigger] old(self).nblock@[row as int]@[j] <= 100_000,
            forall|j: int|
                0 <= j < p.natt() && mus_blocks(
                    old(self).place@,
                    blocker as int,
                    row as int,
                    p.attendees@[j].pt(),
                ) ==> #[trigger] old(self).nblock@[row as int]@[j] >= 1,
            old(self).score_linked(p, row as int),
        ensures
            final(self).full == old(self).full,
            final(self).place@ == old(self).place@,
            final(self).q@ == old(self).q@,
            final(self).volumes@ == old(self).volumes@,
            final(self).with_volumes == old(self).with_volumes,
            final(self).score == old(self).score,
            final(self).nblock@.len() == old(self).nblock@.len(),
            final(self).nblock@[row as int]@.len() == old(self).nblock@[row as int]@.len(),
            final(self).scores@.len() == old(self).scores@.len(),
            forall|r: int|
                0 <= r < old(self).nblock@.len() && r != row as int
                    ==> final(self).nblock@[r] == old(self).nblock@[r],
            forall|r: int|
                0 <= r < old(self).scores@.len() && r != row as int
                    ==> final(self).scores@[r] == old(self).scores@[r],
            forall|j: int|
                0 <= j < p.natt() ==> #[trigger] final(self).nblock@[row as int]@[j]
                    == old(self).nblock@[row as int]@[j] - (if mus_blocks(
                    old(self).place@,
                    blocker as int,
                    row as int,
                    p.attendees@[j].pt(),
                ) {
                    1u32
                } else {
                    0u32
                }),
            final(self).score_linked(p, row as int),
    {
        let natt: usize = p.attendees.len();
        let pos: Point = self.place[row];
        let bpos: Point = self.place[blocker];
        proof {
            lemma_on_stage_coord_ok(p, pos);
            lemma_on_stage_coord_ok(p, bpos);
        }
        let mut j: usize = 0;
        while j < natt
            invariant
                0 <= j <= natt,
                self.shape_ok(p),
                self.place@ == old(self).place@,
                self.q@ == old(self).q@,
                self.volumes@ == old(self).volumes@,
                self.full == old(self).full,
                self.with_volumes == old(self).with_volumes,
                self.score == old(self).score,
                self.nblock@.len() == old(self).nblock@.len(),
                self.scores@.len() == old(self).scores@.len(),
                forall|r: int|
                    0 <= r < old(self).nblock@.len() && r != row as int
                        ==> self.nblock@[r] == old(self).nblock@[r],
                forall|r: int|
                    0 <= r < old(self).scores@.len() && r != row as int
                        ==> self.scores@[r] == old(self).scores@[r],
                forall|jj: int|
                    0 <= jj < j ==> #[trigger] self.nblock@[row as int]@[jj]
                        == old(self).nblock@[row as int]@[jj] - (if mus_blocks(
                        old(self).place@,
                        blocker as int,
                        row as int,
                        p.attendees@[jj].pt(),
                    ) {
                        1u32
                    } else {
                        0u32
                    }),
                forall|jj: int|
                    j <= jj < p.natt() ==> #[trigger] self.nblock@[row as int]@[jj]
                        == old(self).nblock@[row as int]@[jj],
                self.score_linked(p, row as int),
            decreases natt - j,
        {
            proof {
                lemma_attendee_coord_ok(p, j as int);
            }
            let apt: Point = p.attendees[j].point();
            let blocked: bool = blocks_cone(pos, bpos, BLOCK_RADIUS, apt);
            if blocked {
                let ghost c_before = self.nblock@[row as int]@;
                let old_c: u32 = self.nblock[row][j];
                self.nblock[row][j] = old_c - 1;
                proof {
                    lemma_score_upto_update(
                        p,
                        row as int,
                        pos,
                        c_before,
                        self.nblock@[row as int]@,
                        j as int,
                        p.natt(),
                    );
                }
                if old_c == 1 {
                    proof {
                        assert forall|jj: int|
                            0 <= jj < p.natt() implies dist2(
                            pos,
                            #[trigger] p.attendees@[jj].pt(),
                        ) >= 1 by {
                            lemma_attendee_far(p, pos, jj);
                        }
                        lemma_score_upto_bound(p, row as int, pos, c_before, p.natt());
                        lemma_impact_bound(p, row as int, j as int, pos);
                        assert(p.natt() * (IMPACT_MAX as int) <= SCORE_MAX as int)
                            by (nonlinear_arith)
                            requires 0 <= p.natt() <= 10_000 && IMPACT_MAX
                                == 1_000_000_000_000i64 && SCORE_MAX
                                == 10_000_000_000_000_000i64;
                    }
                    let im: i64 = impact(p, row, j, pos);
                    self.scores[row] = self.scores[row] + im;
                }
            }
            j = j + 1;
        }
    }
}

impl Engine {
    /// Apply every pillar's occluding contribution to musician `row`'s
    /// counters. A pillar hides only attendees beyond its own distance.
    #[verifier::loop_isolation(false)]
    pub fn add_pillars(&mut self, p: &Problem, row: usize)
        requires
            p.valid(),
            old(self).shape_ok(p),
            old(self).placement_ok(p),
            row < p.nm(),
            forall|j: int| 0 <= j < p.natt() ==> #[trigger] old(self).nblock@[row as int]@[j] <= 50_000,
            old(self).score_linked(p, row as int),
        ensures
            final(self).full == old(self).full,
            final(self).place@ == old(self).place@,
            final(self).q@ == old(self).q@,
            final(self).volumes@ == old(self).volumes@,
            final(self).with_volumes == old(self).with_volumes,
            final(self).score == old(self).score,
            final(self).nblock@.len() == old(self).nblock@.len(),
            final(self).nblock@[row as int]@.len() == old(self).nblock@[row as int]@.len(),
            final(self).scores@.len() == old(self).scores@.len(),
            forall|r: int|
                0 <= r < old(self).nblock@.len() && r != row as int
                    ==> final(self).nblock@[r] == old(self).nblock@[r],
            forall|r: int|
                0 <= r < old(self).scores@.len() && r != row as int
                    ==> final(self).scores@[r] == old(self).scores@[r],
            forall|j: int|
                0 <= j < p.natt() ==> #[trigger] final(self).nblock@[row as int]@[j]
                    == old(self).nblock@[row as int]@[j] + count_pil(
                    p.pillars@,
                    old(self).place@[row as int],
                    p.attendees@[j].pt(),
                    p.npil(),
                ),
            final(self).score_linked(p, row as int),
    {
        let npil: usize = p.pillars.len();
        let natt: usize = p.attendees.len();
        let pos: Point = self.place[row];
        proof {
            lemma_on_stage_coord_ok(p, pos);
        }
        let mut pi: usize = 0;
        while pi < npil
            invariant
                0 <= pi <= npil,
                self.shape_ok(p),
                self.place@ == old(self).place@,
                self.q@ == old(self).q@,
                self.volumes@ == old(self).volumes@,
                self.full == old(self).full,
                self.with_volumes == old(self).with_volumes,
                self.score == old(self).score,
                self.nblock@.len() == old(self).nblock@.len(),
                self.scores@.len() == old(self).scores@.len(),
                forall|r: int|
                    0 <= r < old(self).nblock@.len() && r != row as int
                        ==> self.nblock@[r] == old(self).nblock@[r],
                forall|r: int|
                    0 <= r < old(self).scores@.len() && r != row as int
                        ==> self.scores@[r] == old(self).scores@[r],
                forall|j: int|
                    0 <= j < p.natt() ==> #[trigger] self.nblock@[row as int]@[j]
                        == old(self).nblock@[row as int]@[j] + count_pil(
                        p.pillars@,
                        pos,
                        p.attendees@[j].pt(),
                        pi as int,
                    ),
                self.score_linked(p, row as int),
            decreases npil - pi,
        {
            proof {
                assert(p.pillar_ok(pi as int));
            }
            let center: Point = p.pillars[pi].center_point();
            let radius: i64 = p.pillars[pi].radius;
            let dp2: i64 = pos.distance_squared(center);
            let mut j: usize = 0;
            while j < natt
                invariant
                    0 <= j <= natt,
                    self.shape_ok(p),
                    self.place@ == old(self).place@,
                    self.q@ == old(self).q@,
                    self.volumes@ == old(self).volumes@,
                    self.full == old(self).full,
                    self.with_volumes == old(self).with_volumes,
                    self.score == old(self).score,
                    self.nblock@.len() == old(self).nblock@.len(),
                    self.scores@.len() == old(self).scores@.len(),
                    forall|r: int|
                        0 <= r < old(self).nblock@.len() && r != row as int
                            ==> self.nblock@[r] == old(self).nblock@[r],
                    forall|r: int|
                        0 <= r < old(self).scores@.len() && r != row as int
                            ==> self.scores@[r] == old(self).scores@[r],
                    forall|jj: int|
                        0 <= jj < j ==> #[trigger] self.nblock@[row as int]@[jj]
                            == old(self).nblock@[row as int]@[jj] + count_pil(
                            p.pillars@,
                            pos,
                            p.attendees@[jj].pt(),
                            pi as int + 1,
                        ),
                    forall|jj: int|
                        j <= jj < p.natt() ==> #[trigger] self.nblock@[row as int]@[jj]
                            == old(self).nblock@[row as int]@[jj] + count_pil(
                            p.pillars@,
                            pos,
                            p.attendees@[jj].pt(),
                            pi as int,
                        ),
                    self.score_linked(p, row as int),
                decreases natt - j,
            {
                proof {
                    lemma_attendee_coord_ok(p, j as int);
                    lemma_count_pil_le(p.pillars@, pos, p.attendees@[j as int].pt(), pi as int);
                }
                let apt: Point = p.attendees[j].point();
                let d2v: i64 = pos.distance_squared(apt);
                let in_cone: bool = blocks_cone(pos, center, radius, apt);
                if in_cone && d2v > dp2 {
                    let ghost c_before = self.nblock@[row as int]@;
                    let old_c: u32 = self.nblock[row][j];
                    if old_c == 0 {
                        proof {
                            assert forall|jj: int|
                                0 <= jj < p.natt() implies dist2(
                                pos,
                                #[trigger] p.attendees@[jj].pt(),
                            ) >= 1 by {
                                lemma_attendee_far(p, pos, jj);
                            }
                            lemma_score_upto_bound(p, row as int, pos, c_before, p.natt());
                            lemma_impact_bound(p, row as int, j as int, pos);
                            assert(p.natt() * (IMPACT_MAX as int) <= SCORE_MAX as int)
                                by (nonlinear_arith)
                                requires 0 <= p.natt() <= 10_000 && IMPACT_MAX
                                    == 1_000_000_000_000i64 && SCORE_MAX
                                    == 10_000_000_000_000_000i64;
                        }
                        let im: i64 = impact(p, row, j, pos);
                        self.scores[row] = self.scores[row] - im;
                    }
                    self.nblock[row][j] = old_c + 1;
                    proof {
                        lemma_score_upto_update(
                            p,
                            row as int,
                            pos,
                            c_before,
                            self.nblock@[row as int]@,
                            j as int,
                            p.natt(),
                        );
                    }
                } else {
                    proof {
                        assert(!pil_blocks(p.pillars@[pi as int], pos, p.attendees@[j as int].pt()));
                    }
                }
                j = j + 1;
            }
            pi = pi + 1;
        }
    }

    /// Rebuild musician `i`'s whole row from scratch against the current
    /// placement: counters reset, the unobstructed score recomputed, then
    /// every other musician's (and, in the full variant, every pillar's)
    /// blocking contribution applied.
    #[verifier::loop_isolation(false)]
    pub fn rebuild(&mut self, p: &Problem, i: usize)
        requires
            p.valid(),
            old(self).shape_ok(p),
            old(self).placement_ok(p),
            i < p.nm(),
        ensures
            final(self).full == old(self).full,
            final(self).place@ == old(self).place@,
            final(self).q@ == old(self).q@,
            final(self).volumes@ == old(self).volumes@,
            final(self).with_volumes == old(self).with_volumes,
            final(self).score == old(self).score,
            final(self).nblock@.len() == old(self).nblock@.len(),
            final(self).nblock@[i as int]@.len() == old(self).nblock@[i as int]@.len(),
            final(self).scores@.len() == old(self).scores@.len(),
            forall|r: int|
                0 <= r < old(self).nblock@.len() && r != i as int
                    ==> final(self).nblock@[r] == old(self).nblock@[r],
            forall|r: int|
                0 <= r < old(self).scores@.len() && r != i as int
                    ==> final(self).scores@[r] == old(self).scores@[r],
            final(self).row_ok(p, i as int),
            final(self).score_linked(p, i as int),
    {
        let natt: usize = p.attendees.len();
        let nm: usize = self.place.len();
        let pos: Point = self.place[i];
        proof {
            lemma_on_stage_coord_ok(p, pos);
        }
        // Reset the counters of row i.
        let mut j: usize = 0;
        while j < natt
            invariant
                0 <= j <= natt,
                self.shape_ok(p),
                self.place@ == old(self).place@,
                self.q@ == old(self).q@,
                self.volumes@ == old(self).volumes@,
                self.full == old(self).full,
                self.with_volumes == old(self).with_volumes,
                self.score == old(self).score,
                self.nblock@.len() == old(self).nblock@.len(),
                self.scores@.len() == old(self).scores@.len(),
                forall|r: int|
                    0 <= r < old(self).nblock@.len() && r != i as int
                        ==> self.nblock@[r] == old(self).nblock@[r],
                forall|r: int|
                    0 <= r < old(self).scores@.len() && r != i as int
                        ==> self.scores@[r] == old(self).scores@[r],
                forall|jj: int| 0 <= jj < j ==> #[trigger] self.nblock@[i as int]@[jj] == 0,
            decreases natt - j,
        {
            self.nblock[i][j] = 0;
            j = j + 1;
        }
        // Unobstructed score.
        let mut s: i64 = 0;
        let mut j2: usize = 0;
        while j2 < natt
            invariant
                0 <= j2 <= natt,
                forall|jj: int| 0 <= jj < p.natt() ==> #[trigger] self.nblock@[i as int]@[jj] == 0,
                s == score_upto(p, i as int, pos, self.nblock@[i as int]@, j2 as int),
                -(j2 as int) * (IMPACT_MAX as int) <= s <= (j2 as int) * (IMPACT_MAX as int),
            decreases natt - j2,
        {
            let im: i64 = impact(p, i, j2, pos);
            proof {
                assert((j2 as int + 1) * (IMPACT_MAX as int) == (j2 as int) * (IMPACT_MAX as int)
                    + IMPACT_MAX as int && (j2 as int + 1) * (IMPACT_MAX as int) <= 10_000 * (
                IMPACT_MAX as int)) by (nonlinear_arith)
                    requires 0 <= j2 as int && j2 as int + 1 <= 10_000 && IMPACT_MAX
                        == 1_000_000_000_000i64;
            }
            s = s + im;
            j2 = j2 + 1;
        }
        self.scores[i] = s;
        // Other musicians' blocking contributions.
        let mut k: usize = 0;
        while k < nm
            invariant
                0 <= k <= nm,
                nm == p.nm(),
                self.shape_ok(p),
                self.place@ == old(self).place@,
                self.q@ == old(self).q@,
                self.volumes@ == old(self).volumes@,
                self.full == old(self).full,
                self.with_volumes == old(self).with_volumes,
                self.score == old(self).score,
                self.nblock@.len() == old(self).nblock@.len(),
                self.scores@.len() == old(self).scores@.len(),
                forall|r: int|
                    0 <= r < old(self).nblock@.len() && r != i as int
                        ==> self.nblock@[r] == old(self).nblock@[r],
                forall|r: int|
                    0 <= r < old(self).scores@.len() && r != i as int
                        ==> self.scores@[r] == old(self).scores@[r],
                forall|jj: int|
                    0 <= jj < p.natt() ==> #[trigger] self.nblock@[i as int]@[jj] == count_mus(
                        self.place@,
                        i as int,
                        p.attendees@[jj].pt(),
                        k as int,
                    ),
                self.score_linked(p, i as int),
            decreases nm - k,
        {
            proof {
                assert forall|jj: int|
                    0 <= jj < p.natt() implies #[trigger] self.nblock@[i as int]@[jj]
                    <= 100_000 by {
                    lemma_count_mus_le(self.place@, i as int, p.attendees@[jj].pt(), k as int);
                }
            }
            if k != i {
                self.add_blocks(p, i, k);
            }
            k = k + 1;
        }
        // Pillars, in the full variant.
        if self.is_full_round() {
            proof {
                assert forall|jj: int|
                    0 <= jj < p.natt() implies #[trigger] self.nblock@[i as int]@[jj]
                    <= 50_000 by {
                    lemma_count_mus_le(self.place@, i as int, p.attendees@[jj].pt(), p.nm());
                }
            }
            self.add_pillars(p, i);
        }
    }
}

/// The floor square root is never negative.
pub proof fn lemma_sqrt_floor_nonneg(n: int)
    ensures
        sqrt_floor(n) >= 0,
    decreases n,
{
    if n > 0 {
        lemma_sqrt_floor_nonneg(n - 1);
    }
}

/// Squared distance is symmetric.
pub proof fn lemma_dist2_symm(a: Point, b: Point)
    ensures
        dist2(a, b) == dist2(b, a),
{
    assert((a.x - b.x) * (a.x - b.x) == (b.x - a.x) * (b.x - a.x)) by (nonlinear_arith);
    assert((a.y - b.y) * (a.y - b.y) == (b.y - a.y) * (b.y - a.y)) by (nonlinear_arith);
}

/// A blocking occluder below `upto` makes the count positive.
pub proof fn lemma_count_mus_ge_one(places: Seq<Point>, i: int, j: int, a: Point, upto: int)
    requires
        0 <= i < upto,
        mus_blocks(places, i, j, a),
    ensures
        count_mus(places, j, a, upto) >= 1,
    decreases upto,
{
    if upto - 1 > i {
        lemma_count_mus_ge_one(places, i, j, a, upto - 1);
    }
}

/// Every closeness term is non-negative and no larger than the whole sum.
pub proof fn lemma_q_term_le_upto(p: &Problem, places: Seq<Point>, j: int, i: int, upto: int)
    requires
        0 <= i < upto,
    ensures
        0 <= q_term(p, places, j, i) <= q_upto(p, places, j, upto),
    decreases upto,
{
    lemma_sqrt_floor_nonneg(1_000_000_000_000int / dist2(places[j], places[i]));
    if upto - 1 > i {
        lemma_q_term_le_upto(p, places, j, i, upto - 1);
        lemma_q_term_nonneg(p, places, j, upto - 1);
    } else {
        lemma_q_upto_nonneg(p, places, j, i);
    }
}

/// Closeness terms are non-negative.
pub proof fn lemma_q_term_nonneg(p: &Problem, places: Seq<Point>, j: int, k: int)
    ensures
        q_term(p, places, j, k) >= 0,
{
    lemma_sqrt_floor_nonneg(1_000_000_000_000int / dist2(places[j], places[k]));
}

/// Under lawful separations one closeness term is at most `100_000`.
pub proof fn lemma_q_term_bounded(p: &Problem, places: Seq<Point>, r: int, i: int)
    requires
        0 <= r < places.len(),
        0 <= i < places.len(),
        forall|x: int, y: int|
            0 <= x < places.len() && 0 <= y < places.len() && x != y ==> dist2(
                #[trigger] places[x],
                #[trigger] places[y],
            ) > MUSICIAN_RADIUS_2,
    ensures
        0 <= q_term(p, places, r, i) <= 100_000,
{
    lemma_q_term_nonneg(p, places, r, i);
    if r != i && p.musicians@[i] == p.musicians@[r] {
        lemma_inv_q_bound(dist2(places[r], places[i]));
    }
}

/// Closeness sums are non-negative.
pub proof fn lemma_q_upto_nonneg(p: &Problem, places: Seq<Point>, j: int, upto: int)
    ensures
        q_upto(p, places, j, upto) >= 0,
    decreases upto,
{
    if upto > 0 {
        lemma_q_upto_nonneg(p, places, j, upto - 1);
        lemma_q_term_nonneg(p, places, j, upto - 1);
    }
}

impl Engine {
    /// The shape of every row after musician `i`'s blocking contribution
    /// has been retracted: the canonical count, minus `i`'s own term.
    pub open spec fn rows_retracted(&self, p: &Problem, i: int, pl1: Seq<Point>) -> bool {
        forall|r: int, a: int|
            0 <= r < p.nm() && r != i && 0 <= a < p.natt()
                ==> (#[trigger] self.nblock@[r]@[a]) as int == nblock_spec(
                p,
                pl1,
                self.full,
                r,
                a,
            ) - (if mus_blocks(pl1, i, r, p.attendees@[a].pt()) {
                1int
            } else {
                0int
            })
    }

    /// Retract musician `i`'s blocking contribution from every other row.
    #[verifier::loop_isolation(false)]
    fn retract_blocks(&mut self, p: &Problem, i: usize)
        requires
            old(self).wf(p),
            i < p.nm(),
        ensures
            final(self).full == old(self).full,
            final(self).place@ == old(self).place@,
            final(self).q@ == old(self).q@,
            final(self).volumes@ == old(self).volumes@,
            final(self).with_volumes == old(self).with_volumes,
            final(self).score == old(self).score,
            final(self).shape_ok(p),
            final(self).rows_retracted(p, i as int, old(self).place@),
            final(self).nblock@[i as int] == old(self).nblock@[i as int],
            forall|r: int| 0 <= r < p.nm() ==> final(self).score_linked(p, r),
    {
        let nm: usize = self.place.len();
        let ghost pl1 = self.place@;
        let mut j: usize = 0;
        while j < nm
            invariant
                0 <= j <= nm,
                self.shape_ok(p),
                self.placement_ok(p),
                self.place@ == pl1,
                self.q@ == old(self).q@,
                self.volumes@ == old(self).volumes@,
                self.full == old(self).full,
                self.with_volumes == old(self).with_volumes,
                self.score == old(self).score,
                forall|r: int, a: int|
                    0 <= r < j && r != i as int && 0 <= a < p.natt()
                        ==> (#[trigger] self.nblock@[r]@[a]) as int
                            == nblock_spec(p, pl1, self.full, r, a) - (if mus_blocks(
                            pl1,
                            i as int,
                            r,
                            p.attendees@[a].pt(),
                        ) {
                            1int
                        } else {
                            0int
                        }),
                forall|r: int|
                    (j <= r < nm || r == i as int) ==> self.nblock@[r] == old(self).nblock@[r],
                forall|r: int| 0 <= r < nm ==> self.score_linked(p, r),
            decreases nm - j,
        {
            if j != i {
                proof {
                    assert(old(self).row_ok(p, j as int));
                    assert forall|a: int| 0 <= a < p.natt() implies #[trigger] self.nblock@[
                        j as int]@[a] <= 100_000 by {
                        lemma_count_mus_le(pl1, j as int, p.attendees@[a].pt(), nm as int);
                        lemma_count_pil_le(p.pillars@, pl1[j as int], p.attendees@[a].pt(), p.npil());
                    }
                    assert forall|a: int|
                        0 <= a < p.natt() && mus_blocks(pl1, i as int, j as int, p.attendees@[a].pt())
                        implies #[trigger] self.nblock@[j as int]@[a] >= 1 by {
                        lemma_count_mus_ge_one(pl1, i as int, j as int, p.attendees@[a].pt(), nm as int);
                    }
                }
                let ghost pre = *self;
                self.rem_blocks(p, j, i);
                proof {
                    assert forall|r: int| 0 <= r < nm implies self.score_linked(p, r) by {
                        assert(pre.score_linked(p, r));
                        if r != j as int {
                            assert(self.scores@[r] == pre.scores@[r]);
                            assert(self.nblock@[r] == pre.nblock@[r]);
                        }
                    }
                }
            }
            j = j + 1;
        }
    }

    /// Retract musician `i`'s closeness contributions (full variant only).
    #[verifier::loop_isolation(false)]
    fn retract_q(&mut self, p: &Problem, i: usize)
        requires
            p.valid(),
            old(self).shape_ok(p),
            old(self).placement_ok(p),
            old(self).q_ok(p),
            i < p.nm(),
        ensures
            final(self).full == old(self).full,
            final(self).place@ == old(self).place@,
            final(self).nblock@ == old(self).nblock@,
            final(self).scores@ == old(self).scores@,
            final(self).volumes@ == old(self).volumes@,
            final(self).with_volumes == old(self).with_volumes,
            final(self).score == old(self).score,
            final(self).q@.len() == old(self).q@.len(),
            final(self).q@[i as int] == old(self).q@[i as int],
            forall|r: int|
                0 <= r < p.nm() && r != i as int ==> #[trigger] final(self).q@[r] == q_spec(
                    p,
                    old(self).place@,
                    old(self).full,
                    r,
                ) - (if old(self).full {
                    q_term(p, old(self).place@, r, i as int)
                } else {
                    0int
                }),
    {
        let nm: usize = self.place.len();
        let ghost pl1 = self.place@;
        if !self.is_full_round() {
            return ;
        }
        let mut j2: usize = 0;
        while j2 < nm
            invariant
                0 <= j2 <= nm,
                self.full,
                self.shape_ok(p),
                self.placement_ok(p),
                self.place@ == pl1,
                self.volumes@ == old(self).volumes@,
                self.full == old(self).full,
                self.with_volumes == old(self).with_volumes,
                self.score == old(self).score,
                self.nblock@ == old(self).nblock@,
                self.scores@ == old(self).scores@,
                forall|r: int|
                    0 <= r < j2 && r != i as int ==> #[trigger] self.q@[r] == q_spec(
                        p,
                        pl1,
                        true,
                        r,
                    ) - q_term(p, pl1, r, i as int),
                forall|r: int|
                    (j2 <= r < nm || r == i as int) ==> #[trigger] self.q@[r] == old(self).q@[r],
            decreases nm - j2,
        {
            if j2 != i && p.musicians[j2] == p.musicians[i] {
                proof {
                    lemma_on_stage_coord_ok(p, pl1[j2 as int]);
                    lemma_on_stage_coord_ok(p, pl1[i as int]);
                    lemma_q_term_le_upto(p, pl1, j2 as int, i as int, nm as int);
                    lemma_q_upto_bound(p, pl1, j2 as int, nm as int);
                    assert((nm as int) * 100_000 <= 1_000_000_000int) by (nonlinear_arith)
                        requires nm as int <= 10_000;
                }
                let d2v: i64 = self.place[j2].distance_squared(self.place[i]);
                let dq: i64 = inv_q_exec(d2v);
                self.q[j2] = self.q[j2] - dq;
            }
            j2 = j2 + 1;
        }
    }

    /// Write musician `i`'s new position and re-establish every closeness
    /// factor against it.
    #[verifier::loop_isolation(false)]
    fn apply_move_q(&mut self, p: &Problem, i: usize, to: Point)
        requires
            p.valid(),
            old(self).shape_ok(p),
            old(self).placement_ok(p),
            i < p.nm(),
            p.on_stage_spec(to),
            forall|k: int|
                0 <= k < p.nm() && k != i as int ==> dist2(to, #[trigger] old(self).place@[k])
                    > MUSICIAN_RADIUS_2,
            forall|r: int|
                0 <= r < p.nm() && r != i as int ==> #[trigger] old(self).q@[r] == q_spec(
                    p,
                    old(self).place@,
                    old(self).full,
                    r,
                ) - (if old(self).full {
                    q_term(p, old(self).place@, r, i as int)
                } else {
                    0int
                }),
        ensures
            final(self).full == old(self).full,
            final(self).place@ == old(self).place@.update(i as int, to),
            final(self).nblock@ == old(self).nblock@,
            final(self).scores@ == old(self).scores@,
            final(self).volumes@ == old(self).volumes@,
            final(self).with_volumes == old(self).with_volumes,
            final(self).score == old(self).score,
            final(self).shape_ok(p),
            final(self).placement_ok(p),
            final(self).q_ok(p),
    {
        let nm: usize = self.place.len();
        let ghost pl1 = self.place@;
        let ghost q_mid = self.q@;
        self.place[i] = to;
        let ghost pl2 = self.place@;
        proof {
            assert(pl2 == pl1.update(i as int, to));
            assert forall|r: int, k: int|
                0 <= r < nm && 0 <= k < nm && r != k implies dist2(
                #[trigger] pl2[r],
                #[trigger] pl2[k],
            ) > MUSICIAN_RADIUS_2 by {
                if r == i as int {
                    assert(dist2(to, pl1[k]) > MUSICIAN_RADIUS_2);
                } else if k == i as int {
                    lemma_dist2_symm(to, pl1[r]);
                }
            }
            assert(self.placement_ok(p));
        }
        self.q[i] = Q_ONE;
        if self.is_full_round() {
            let mut j3: usize = 0;
            let mut qi: i64 = Q_ONE;
            while j3 < nm
                invariant
                    0 <= j3 <= nm,
                    self.full,
                    self.shape_ok(p),
                    self.placement_ok(p),
                    self.place@ == pl2,
                    self.volumes@ == old(self).volumes@,
                    self.full == old(self).full,
                    self.with_volumes == old(self).with_volumes,
                    self.score == old(self).score,
                    self.nblock@ == old(self).nblock@,
                    self.scores@ == old(self).scores@,
                    qi == Q_ONE + q_upto(p, pl2, i as int, j3 as int),
                    forall|r: int|
                        0 <= r < j3 && r != i as int ==> #[trigger] self.q@[r] == q_spec(
                            p,
                            pl1,
                            true,
                            r,
                        ) - q_term(p, pl1, r, i as int) + q_term(p, pl2, r, i as int),
                    forall|r: int|
                        j3 <= r < nm && r != i as int ==> #[trigger] self.q@[r] == q_mid[r],
                decreases nm - j3,
            {
                proof {
                    lemma_q_upto_bound(p, pl2, i as int, j3 as int);
                    lemma_q_upto_bound(p, pl1, j3 as int, nm as int);
                    lemma_q_term_le_upto(p, pl1, j3 as int, i as int, nm as int);
                    lemma_q_term_nonneg(p, pl1, j3 as int, i as int);
                    assert((nm as int) * 100_000 <= 1_000_000_000int
                        && (j3 as int) * 100_000 <= 1_000_000_000int) by (nonlinear_arith)
                        requires nm as int <= 10_000 && 0 <= j3 as int <= 10_000;
                }
                if j3 != i && p.musicians[j3] == p.musicians[i] {
                    proof {
                        lemma_on_stage_coord_ok(p, pl2[j3 as int]);
                        lemma_on_stage_coord_ok(p, pl2[i as int]);
                        lemma_q_term_nonneg(p, pl2, j3 as int, i as int);
                        lemma_inv_q_bound(dist2(pl2[i as int], pl2[j3 as int]));
                    }
                    let d2v: i64 = self.place[i].distance_squared(self.place[j3]);
                    let dq: i64 = inv_q_exec(d2v);
                    proof {
                        lemma_dist2_symm(pl2[i as int], pl2[j3 as int]);
                    }
                    qi = qi + dq;
                    self.q[j3] = self.q[j3] + dq;
                }
                j3 = j3 + 1;
            }
            self.q[i] = qi;
        }
        proof {
            assert forall|r: int| 0 <= r < nm implies #[trigger] self.q@[r] == q_spec(
                p,
                pl2,
                self.full,
                r,
            ) by {
                if self.full && r != i as int {
                    lemma_q_upto_update(p, pl1, pl2, i as int, r, nm as int);
                }
            }
        }
    }

    /// Re-apply musician `i`'s blocking contribution, at its new position,
    /// to every other row.
    #[verifier::loop_isolation(false)]
    fn reapply_blocks(&mut self, p: &Problem, i: usize, Ghost(pl1): Ghost<Seq<Point>>)
        requires
            p.valid(),
            old(self).shape_ok(p),
            old(self).placement_ok(p),
            i < p.nm(),
            pl1.len() == p.nm(),
            old(self).place@ == pl1.update(i as int, old(self).place@[i as int]),
            old(self).rows_retracted(p, i as int, pl1),
            old(self).row_ok(p, i as int),
            forall|r: int| 0 <= r < p.nm() ==> old(self).score_linked(p, r),
        ensures
            final(self).full == old(self).full,
            final(self).place@ == old(self).place@,
            final(self).q@ == old(self).q@,
            final(self).volumes@ == old(self).volumes@,
            final(self).with_volumes == old(self).with_volumes,
            final(self).score == old(self).score,
            final(self).shape_ok(p),
            final(self).counters_ok(p),
            final(self).scores_ok(p),
    {
        let nm: usize = self.place.len();
        let ghost pl2 = self.place@;
        let mut j4: usize = 0;
        while j4 < nm
            invariant
                0 <= j4 <= nm,
                self.shape_ok(p),
                self.placement_ok(p),
                self.place@ == pl2,
                self.q@ == old(self).q@,
                self.volumes@ == old(self).volumes@,
                self.full == old(self).full,
                self.with_volumes == old(self).with_volumes,
                self.score == old(self).score,
                forall|r: int| (0 <= r < j4 || r == i as int) ==> self.row_ok(p, r),
                forall|r: int, a: int|
                    j4 <= r < nm && r != i as int && 0 <= a < p.natt()
                        ==> (#[trigger] self.nblock@[r]@[a]) as int
                            == nblock_spec(p, pl1, self.full, r, a) - (if mus_blocks(
                            pl1,
                            i as int,
                            r,
                            p.attendees@[a].pt(),
                        ) {
                            1int
                        } else {
                            0int
                        }),
                forall|r: int| 0 <= r < nm ==> self.score_linked(p, r),
            decreases nm - j4,
        {
            if j4 != i {
                proof {
                    assert forall|a: int| 0 <= a < p.natt() implies #[trigger] self.nblock@[
                        j4 as int]@[a] <= 100_000 by {
                        lemma_count_mus_le(pl1, j4 as int, p.attendees@[a].pt(), nm as int);
                        lemma_count_pil_le(p.pillars@, pl1[j4 as int], p.attendees@[a].pt(), p.npil());
                    }
                }
                let ghost pre = *self;
                self.add_blocks(p, j4, i);
                proof {
                    assert forall|a: int| 0 <= a < p.natt() implies (#[trigger] self.nblock@[
                        j4 as int]@[a]) as nat == nblock_spec(p, pl2, self.full, j4 as int, a) by {
                        lemma_count_mus_update(pl1, pl2, i as int, j4 as int, p.attendees@[a].pt(), nm as int);
                        assert(pl2[j4 as int] == pl1[j4 as int]);
                    }
                    assert(self.row_ok(p, j4 as int));
                    assert forall|r: int| (0 <= r < j4 + 1 || r == i as int) && r < nm
                        implies self.row_ok(p, r) by {
                        if r != j4 as int {
                            assert(pre.row_ok(p, r));
                            assert(self.nblock@[r] == pre.nblock@[r]);
                        }
                    }
                    assert forall|r: int| 0 <= r < nm implies self.score_linked(p, r) by {
                        assert(pre.score_linked(p, r));
                        if r != j4 as int {
                            assert(self.scores@[r] == pre.scores@[r]);
                            assert(self.nblock@[r] == pre.nblock@[r]);
                        }
                    }
                }
            }
            j4 = j4 + 1;
        }
    }

    /// Subtract musician `i`'s closeness term from every other factor,
    /// at the current distances.
    #[verifier::loop_isolation(false)]
    fn sub_q_of(&mut self, p: &Problem, i: usize)
        requires
            p.valid(),
            old(self).shape_ok(p),
            old(self).placement_ok(p),
            i < p.nm(),
            forall|r: int|
                0 <= r < p.nm() ==> -100_000_000_000 <= #[trigger] old(self).q@[r]
                    <= 100_000_000_000,
        ensures
            final(self).full == old(self).full,
            final(self).place@ == old(self).place@,
            final(self).nblock@ == old(self).nblock@,
            final(self).scores@ == old(self).scores@,
            final(self).volumes@ == old(self).volumes@,
            final(self).with_volumes == old(self).with_volumes,
            final(self).score == old(self).score,
            final(self).q@.len() == old(self).q@.len(),
            final(self).q@[i as int] == old(self).q@[i as int],
            forall|r: int|
                0 <= r < p.nm() && r != i as int ==> #[trigger] final(self).q@[r]
                    == old(self).q@[r] - q_term(p, old(self).place@, r, i as int),
    {
        let nm: usize = self.place.len();
        let ghost pl = self.place@;
        let mut j: usize = 0;
        while j < nm
            invariant
                0 <= j <= nm,
                self.place@ == pl,
                self.nblock@ == old(self).nblock@,
                self.scores@ == old(self).scores@,
                self.volumes@ == old(self).volumes@,
                self.full == old(self).full,
                self.with_volumes == old(self).with_volumes,
                self.score == old(self).score,
                self.q@.len() == nm as int,
                self.q@[i as int] == old(self).q@[i as int],
                forall|r: int|
                    0 <= r < j && r != i as int ==> #[trigger] self.q@[r] == old(self).q@[r]
                        - q_term(p, pl, r, i as int),
                forall|r: int| j <= r < nm ==> #[trigger] self.q@[r] == old(self).q@[r],
            decreases nm - j,
        {
            if j != i && p.musicians[j] == p.musicians[i] {
                proof {
                    lemma_on_stage_coord_ok(p, pl[j as int]);
                    lemma_on_stage_coord_ok(p, pl[i as int]);
                }
                let d2v: i64 = self.place[j].distance_squared(self.place[i]);
                let dq: i64 = inv_q_exec(d2v);
                self.q[j] = self.q[j] - dq;
            }
            j = j + 1;
        }
    }

    /// Add musician `i`'s closeness term to every other factor, and the
    /// whole sum of `i`'s own terms to `q[i]`, at the current distances.
    #[verifier::loop_isolation(false)]
    fn add_q_of(&mut self, p: &Problem, i: usize)
        requires
            p.valid(),
            old(self).shape_ok(p),
            old(self).placement_ok(p),
            i < p.nm(),
            forall|r: int|
                0 <= r < p.nm() ==> -100_000_000_000 <= #[trigger] old(self).q@[r]
                    <= 100_000_000_000,
        ensures
            final(self).full == old(self).full,
            final(self).place@ == old(self).place@,
            final(self).nblock@ == old(self).nblock@,
            final(self).scores@ == old(self).scores@,
            final(self).volumes@ == old(self).volumes@,
            final(self).with_volumes == old(self).with_volumes,
            final(self).score == old(self).score,
            final(self).q@.len() == old(self).q@.len(),
            final(self).q@[i as int] == old(self).q@[i as int] + q_upto(
                p,
                old(self).place@,
                i as int,
                p.nm(),
            ),
            forall|r: int|
                0 <= r < p.nm() && r != i as int ==> #[trigger] final(self).q@[r]
                    == old(self).q@[r] + q_term(p, old(self).place@, r, i as int),
    {
        let nm: usize = self.place.len();
        let ghost pl = self.place@;
        let mut j: usize = 0;
        while j < nm
            invariant
                0 <= j <= nm,
                self.place@ == pl,
                self.nblock@ == old(self).nblock@,
                self.scores@ == old(self).scores@,
                self.volumes@ == old(self).volumes@,
                self.full == old(self).full,
                self.with_volumes == old(self).with_volumes,
                self.score == old(self).score,
                self.q@.len() == nm as int,
                self.q@[i as int] == old(self).q@[i as int] + q_upto(p, pl, i as int, j as int),
                forall|r: int|
                    0 <= r < j && r != i as int ==> #[trigger] self.q@[r] == old(self).q@[r]
                        + q_term(p, pl, r, i as int),
                forall|r: int|
                    j <= r < nm && r != i as int ==> #[trigger] self.q@[r] == old(self).q@[r],
            decreases nm - j,
        {
            proof {
                lemma_q_upto_bound(p, pl, i as int, j as int);
                assert((j as int) * 100_000 <= 1_000_000_000int) by (nonlinear_arith)
                    requires 0 <= j as int <= 10_000;
                lemma_q_term_nonneg(p, pl, i as int, j as int);
            }
            if j != i && p.musicians[j] == p.musicians[i] {
                proof {
                    lemma_on_stage_coord_ok(p, pl[j as int]);
                    lemma_on_stage_coord_ok(p, pl[i as int]);
                    lemma_inv_q_bound(dist2(pl[i as int], pl[j as int]));
                    lemma_dist2_symm(pl[i as int], pl[j as int]);
                }
                let d2v: i64 = self.place[i].distance_squared(self.place[j]);
                let dq: i64 = inv_q_exec(d2v);
                self.q[i] = self.q[i] + dq;
                self.q[j] = self.q[j] + dq;
            }
            j = j + 1;
        }
    }

    /// Swap the positions of musicians `a` and `b`, keeping every derived
    /// quantity exact. The other musicians' counters need no adjustment:
    /// swapping two occluders permutes the occluding bodies without
    /// changing the set of positions seen from any third musician. When
    /// `a` and `b` share an instrument, their mutual closeness term would
    /// be applied twice by the two per-musician passes; one subtraction at
    /// the end corrects it.
    #[verifier::loop_isolation(false)]
    pub fn do_swap(&mut self, p: &Problem, a: usize, b: usize)
        requires
            old(self).wf(p),
            a < p.nm(),
            b < p.nm(),
            a != b,
        ensures
            final(self).wf(p),
            final(self).place@ == old(self).place@.update(a as int, old(self).place@[b as int])
                .update(b as int, old(self).place@[a as int]),
            final(self).full == old(self).full,
            final(self).volumes@ == old(self).volumes@,
            final(self).with_volumes == false,
    {
        let nm: usize = self.place.len();
        let ghost pl1 = self.place@;
        proof {
            lemma_wf_bounds(self, p);
        }
        // Retract the pair's stale closeness terms at the old distances.
        if self.is_full_round() {
            self.sub_q_of(p, a);
            proof {
                assert forall|r: int|
                    0 <= r < nm implies -100_000_000_000 <= #[trigger] self.q@[r]
                    <= 100_000_000_000 by {
                    lemma_q_term_bounded(p, pl1, r, a as int);
                }
            }
            self.sub_q_of(p, b);
        }
        let ghost q_ret = self.q@;
        proof {
            assert forall|r: int|
                0 <= r < nm implies -10_000_000_000 <= #[trigger] q_ret[r]
                <= 10_000_000_000 by {
                assert(Q_ONE <= old(self).q@[r] <= Q_MAX);
                if self.full {
                    lemma_q_term_bounded(p, pl1, r, a as int);
                    lemma_q_term_bounded(p, pl1, r, b as int);
                }
            }
        }
        // Swap the positions.
        let pa: Point = self.place[a];
        let pb: Point = self.place[b];
        self.place[a] = pb;
        self.place[b] = pa;
        let ghost pl_mid = pl1.update(a as int, pb);
        let ghost pl2 = self.place@;
        proof {
            assert(pl2 == pl_mid.update(b as int, pa));
            assert forall|r: int, k: int|
                0 <= r < nm && 0 <= k < nm && r != k implies dist2(
                #[trigger] pl2[r],
                #[trigger] pl2[k],
            ) > MUSICIAN_RADIUS_2 by {
                assert(dist2(pl1[r], pl1[k]) > MUSICIAN_RADIUS_2);
                assert(dist2(pl1[b as int], pl1[a as int]) > MUSICIAN_RADIUS_2);
            }
            assert(self.placement_ok(p));
        }
        // Rebuild the pair's own rows against the new placement.
        proof {
            assert forall|r: int|
                0 <= r < nm && r != a as int && r != b as int implies self.score_linked(
                p,
                r,
            ) by {
                assert(old(self).score_linked(p, r));
                assert(self.scores@ == old(self).scores@);
                assert(self.nblock@ == old(self).nblock@);
                assert(self.place@[r] == pl1[r]);
            }
        }
        let ghost pre_r1 = *self;
        self.rebuild(p, a);
        proof {
            assert forall|r: int|
                0 <= r < nm && r != b as int implies self.score_linked(p, r) by {
                if r != a as int {
                    assert(pre_r1.score_linked(p, r));
                    assert(self.scores@[r] == pre_r1.scores@[r]);
                    assert(self.nblock@[r] == pre_r1.nblock@[r]);
                }
            }
        }
        let ghost pre_r2 = *self;
        self.rebuild(p, b);
        proof {
            assert forall|r: int| 0 <= r < nm implies self.score_linked(p, r) by {
                if r != b as int {
                    assert(pre_r2.score_linked(p, r));
                    assert(self.scores@[r] == pre_r2.scores@[r]);
                    assert(self.nblock@[r] == pre_r2.nblock@[r]);
                }
            }
            // The third musicians' counters already match the swapped
            // placement: the two position updates cancel in every count.
            assert forall|r: int, x: int|
                0 <= r < nm && r != a as int && r != b as int && 0 <= x < p.natt()
                implies (#[trigger] self.nblock@[r]@[x]) as nat == nblock_spec(
                p,
                pl2,
                self.full,
                r,
                x,
            ) by {
                let att = p.attendees@[x].pt();
                assert(old(self).row_ok(p, r));
                assert(self.nblock@[r] == old(self).nblock@[r]);
                lemma_count_mus_update(pl1, pl_mid, a as int, r, att, nm as int);
                lemma_count_mus_update(pl_mid, pl2, b as int, r, att, nm as int);
                assert(pl_mid[r] == pl1[r] && pl2[r] == pl1[r]);
            }
            assert forall|r: int| 0 <= r < nm implies self.row_ok(p, r) by {
                if r != a as int && r != b as int {
                }
            }
        }
        let ghost st_rows = *self;
        // Re-apply the pair's closeness terms at the new distances, then
        // correct the double-counted mutual term.
        if self.is_full_round() {
            self.q[a] = Q_ONE;
            self.q[b] = Q_ONE;
            proof {
                lemma_q_upto_bound(p, pl2, a as int, nm as int);
                lemma_q_upto_bound(p, pl2, b as int, nm as int);
                assert((nm as int) * 100_000 <= 1_000_000_000int) by (nonlinear_arith)
                    requires nm as int <= 10_000;
            }
            self.add_q_of(p, a);
            proof {
                assert forall|r: int|
                    0 <= r < nm implies -100_000_000_000 <= #[trigger] self.q@[r]
                    <= 100_000_000_000 by {
                    lemma_q_term_bounded(p, pl2, r, a as int);
                    lemma_q_upto_bound(p, pl2, a as int, nm as int);
                    assert((nm as int) * 100_000 <= 1_000_000_000int) by (nonlinear_arith)
                        requires nm as int <= 10_000;
                    if r == a as int {
                        assert(self.q@[r] == Q_ONE + q_upto(p, pl2, a as int, nm as int));
                    } else if r == b as int {
                        assert(self.q@[r] == Q_ONE + q_term(p, pl2, r, a as int));
                    } else {
                        assert(self.q@[r] == q_ret[r] + q_term(p, pl2, r, a as int));
                    }
                }
            }
            self.add_q_of(p, b);
            if p.musicians[a] == p.musicians[b] {
                proof {
                    lemma_on_stage_coord_ok(p, pl2[a as int]);
                    lemma_on_stage_coord_ok(p, pl2[b as int]);
                    lemma_inv_q_bound(dist2(pl2[a as int], pl2[b as int]));
                    lemma_dist2_symm(pl2[a as int], pl2[b as int]);
                }
                let d2v: i64 = self.place[a].distance_squared(self.place[b]);
                let dq: i64 = inv_q_exec(d2v);
                self.q[a] = self.q[a] - dq;
                self.q[b] = self.q[b] - dq;
            }
            proof {
                lemma_dist2_symm(pl2[a as int], pl2[b as int]);
                assert forall|r: int| 0 <= r < nm implies #[trigger] self.q@[r] == q_spec(
                    p,
                    pl2,
                    self.full,
                    r,
                ) by {
                    if r != a as int && r != b as int {
                        assert(q_ret[r] == q_spec(p, pl1, true, r) - q_term(p, pl1, r, a as int)
                            - q_term(p, pl1, r, b as int));
                        lemma_q_upto_update(p, pl1, pl_mid, a as int, r, nm as int);
                        lemma_q_upto_update(p, pl_mid, pl2, b as int, r, nm as int);
                        assert(q_term(p, pl_mid, r, a as int) == q_term(p, pl2, r, a as int));
                        assert(q_term(p, pl_mid, r, b as int) == q_term(p, pl1, r, b as int));
                    }
                }
            }
        } else {
            proof {
                assert forall|r: int| 0 <= r < nm implies #[trigger] self.q@[r] == q_spec(
                    p,
                    pl2,
                    self.full,
                    r,
                ) by {
                    assert(self.q@[r] == old(self).q@[r]);
                    assert(old(self).q@[r] == q_spec(p, pl1, false, r));
                }
            }
        }
        proof {
            assert forall|r: int| 0 <= r < nm implies self.score_linked(p, r) by {
                assert(st_rows.score_linked(p, r));
                assert(self.scores@ == st_rows.scores@);
                assert(self.nblock@ == st_rows.nblock@);
                assert(self.place@ == st_rows.place@);
            }
            assert forall|r: int| 0 <= r < nm implies self.row_ok(p, r) by {
                assert(st_rows.row_ok(p, r));
                assert(self.nblock@ == st_rows.nblock@);
            }
            lemma_wf_bounds(self, p);
        }
        let ghost pre_total = *self;
        self.update_score(p, false);
        proof {
            assert forall|r: int| 0 <= r < p.nm() implies self.row_ok(p, r) by {
                assert(pre_total.row_ok(p, r));
                assert(self.nblock@[r] == pre_total.nblock@[r]);
            }
            assert forall|r: int| 0 <= r < p.nm() implies self.score_linked(p, r) by {
                assert(pre_total.score_linked(p, r));
            }
            assert(self.total_ok(p));
        }
    }

    /// Move musician `i` to `to`, keeping every derived quantity exact:
    /// retract `i`'s stale blocking and closeness contributions, mutate
    /// the position, rebuild `i`'s own row, re-apply `i`'s contributions
    /// at the new position, and recompute the aggregate (trial mode).
    ///
    /// The caller must have screened `to` with the collision predicate:
    /// retraction must precede mutation and mutation must precede
    /// re-application, and the engine is never asked to move onto an
    /// overlapping position.
    #[verifier::loop_isolation(false)]
    pub fn do_move(&mut self, p: &Problem, i: usize, to: Point)
        requires
            old(self).wf(p),
            i < p.nm(),
            p.on_stage_spec(to),
            forall|k: int|
                0 <= k < p.nm() && k != i as int ==> dist2(to, #[trigger] old(self).place@[k])
                    > MUSICIAN_RADIUS_2,
        ensures
            final(self).wf(p),
            final(self).place@ == old(self).place@.update(i as int, to),
            final(self).full == old(self).full,
            final(self).volumes@ == old(self).volumes@,
            final(self).with_volumes == false,
    {
        let nm: usize = self.place.len();
        let ghost pl1 = self.place@;
        self.retract_blocks(p, i);
        let ghost st_a = *self;
        self.retract_q(p, i);
        proof {
            assert forall|r: int| 0 <= r < nm implies self.score_linked(p, r) by {
                assert(st_a.score_linked(p, r));
                assert(self.nblock@ == st_a.nblock@);
                assert(self.scores@ == st_a.scores@);
                assert(self.place@ == st_a.place@);
            }
        }
        let ghost st_b = *self;
        self.apply_move_q(p, i, to);
        proof {
            assert forall|r: int| 0 <= r < nm && r != i as int implies self.score_linked(
                p,
                r,
            ) by {
                assert(st_b.score_linked(p, r));
                assert(self.nblock@ == st_b.nblock@);
                assert(self.scores@ == st_b.scores@);
                assert(self.place@[r] == st_b.place@[r]);
            }
        }
        let ghost pre_rebuild = *self;
        self.rebuild(p, i);
        proof {
            assert forall|r: int| 0 <= r < nm implies self.score_linked(p, r) by {
                if r != i as int {
                    assert(pre_rebuild.score_linked(p, r));
                    assert(self.scores@[r] == pre_rebuild.scores@[r]);
                    assert(self.nblock@[r] == pre_rebuild.nblock@[r]);
                }
            }
            assert(self.rows_retracted(p, i as int, pl1));
        }
        self.reapply_blocks(p, i, Ghost(pl1));
        proof {
            lemma_wf_bounds(self, p);
        }
        let ghost pre_total = *self;
        self.update_score(p, false);
        proof {
            assert forall|r: int| 0 <= r < p.nm() implies self.row_ok(p, r) by {
                assert(pre_total.row_ok(p, r));
                assert(self.nblock@[r] == pre_total.nblock@[r]);
            }
            assert forall|r: int| 0 <= r < p.nm() implies self.score_linked(p, r) by {
                assert(pre_total.score_linked(p, r));
            }
            assert(self.total_ok(p));
        }
    }
}

/// Bound on the aggregate score.
pub proof fn lemma_total_upto_bound(
    q: Seq<i64>,
    s: Seq<i64>,
    v: Seq<i64>,
    withv: bool,
    upto: int,
)
    requires
        0 <= upto,
        forall|j: int| 0 <= j < upto ==> -Q_MAX <= #[trigger] q[j] <= Q_MAX,
        forall|j: int| 0 <= j < upto ==> -SCORE_MAX <= #[trigger] s[j] <= SCORE_MAX,
        forall|j: int| 0 <= j < upto ==> 0 <= #[trigger] v[j] <= MAX_VOLUME,
    ensures
        -upto * (TERM_MAX as int) <= total_upto(q, s, v, withv, upto) <= upto * (TERM_MAX as int),
    decreases upto,
{
    if upto > 0 {
        lemma_total_upto_bound(q, s, v, withv, upto - 1);
        lemma_total_term_bound(q[upto - 1] as int, s[upto - 1] as int, v[upto - 1] as int, withv);
        assert((upto - 1) * (TERM_MAX as int) + (TERM_MAX as int) == upto * (TERM_MAX as int))
            by (nonlinear_arith);
    }
}

// ------------------------------------------------------------------
// Construction, canonical totals, and the engine laws
// ------------------------------------------------------------------

/// Why an engine could not be built from a problem and a solution.
#[derive(Clone, Copy, Debug, PartialEq, Eq, Structural)]
pub enum EngineError {
    /// The problem violates the validity conditions of `Problem::valid`.
    InvalidProblem,
    /// Placement or volume count differs from the musician count.
    LengthMismatch,
    /// A volume lies outside `0 ..= MAX_VOLUME`.
    VolumeOutOfRange,
    /// A musician stands off the shrunk stage.
    OffStage,
    /// Two musicians stand within the minimum separation.
    Overlap,
}

/// The construction decision: the first reason, in checking order, why an
/// engine cannot be built, or `None` when it can.
pub open spec fn construct_error(p: &Problem, s: &Solution) -> Option<EngineError> {
    if !p.valid() {
        Some(EngineError::InvalidProblem)
    } else if s.placements@.len() != p.nm() || s.volumes@.len() != p.nm() {
        Some(EngineError::LengthMismatch)
    } else if !(forall|i: int| 0 <= i < p.nm() ==> 0 <= #[trigger] s.volumes@[i] <= MAX_VOLUME) {
        Some(EngineError::VolumeOutOfRange)
    } else if !(forall|i: int| 0 <= i < p.nm() ==> p.on_stage_spec(#[trigger] s.placements@[i])) {
        Some(EngineError::OffStage)
    } else if !(forall|i: int, k: int|
        0 <= i < p.nm() && 0 <= k < p.nm() && i != k ==> dist2(
            #[trigger] s.placements@[i],
            #[trigger] s.placements@[k],
        ) > MUSICIAN_RADIUS_2) {
        Some(EngineError::Overlap)
    } else {
        None
    }
}

/// Executable check of `Problem::valid`.
#[verifier::loop_isolation(false)]
pub fn validate_problem(p: &Problem) -> (r: bool)
    ensures
        r == p.valid(),
{
    if !(0 <= p.room_width && p.room_width <= MAX_COORD && 0 <= p.room_height && p.room_height
        <= MAX_COORD && 0 <= p.stage_bottom_left.x && 0 <= p.stage_bottom_left.y && 2
        * MUSICIAN_RADIUS <= p.stage_width && 2 * MUSICIAN_RADIUS <= p.stage_height
        && p.stage_bottom_left.x <= p.room_width - p.stage_width && p.stage_bottom_left.y
        <= p.room_height - p.stage_height) {
        return false;
    }
    if p.musicians.len() > MAX_MUSICIANS || p.attendees.len() > MAX_ATTENDEES || p.pillars.len()
        > MAX_PILLARS {
        return false;
    }
    let natt: usize = p.attendees.len();
    let mut j: usize = 0;
    while j < natt
        invariant
            0 <= j <= natt,
            forall|x: int| 0 <= x < j ==> p.attendee_ok(x),
        decreases natt - j,
    {
        let a = &p.attendees[j];
        if !(0 <= a.x && a.x <= p.room_width && 0 <= a.y && a.y <= p.room_height) {
            proof {
                assert(!p.attendee_ok(j as int));
            }
            return false;
        }
        if !(a.x < p.stage_bottom_left.x || a.x > p.stage_bottom_left.x + p.stage_width || a.y
            < p.stage_bottom_left.y || a.y > p.stage_bottom_left.y + p.stage_height) {
            proof {
                assert(!p.attendee_off_stage(j as int));
                assert(!p.attendee_ok(j as int));
            }
            return false;
        }
        let nt: usize = a.tastes.len();
        let mut t: usize = 0;
        while t < nt
            invariant
                0 <= t <= nt,
                forall|x: int| 0 <= x < t ==> -MAX_TASTE <= #[trigger] a.tastes@[x] <= MAX_TASTE,
            decreases nt - t,
        {
            if a.tastes[t] < -MAX_TASTE || a.tastes[t] > MAX_TASTE {
                proof {
                    assert(!p.attendee_ok(j as int));
                }
                return false;
            }
            t = t + 1;
        }
        j = j + 1;
    }
    let mut pi: usize = 0;
    while pi < p.pillars.len()
        invariant
            0 <= pi <= p.npil(),
            forall|x: int| 0 <= x < pi ==> p.pillar_ok(x),
        decreases p.npil() - pi,
    {
        let pl = &p.pillars[pi];
        if !(0 <= pl.center.x && pl.center.x <= p.room_width && 0 <= pl.center.y && pl.center.y
            <= p.room_height && 0 <= pl.radius && pl.radius <= MAX_COORD) {
            proof {
                assert(!p.pillar_ok(pi as int));
            }
            return false;
        }
        pi = pi + 1;
    }
    let mut i: usize = 0;
    while i < p.musicians.len()
        invariant
            0 <= i <= p.nm(),
            forall|x: int, y: int|
                0 <= x < i && 0 <= y < p.natt() ==> #[trigger] p.musicians@[x]
                    < #[trigger] p.attendees@[y].tastes@.len(),
        decreases p.nm() - i,
    {
        let inst: usize = p.musicians[i];
        let mut j2: usize = 0;
        while j2 < natt
            invariant
                0 <= j2 <= natt,
                inst == p.musicians@[i as int],
                forall|y: int|
                    0 <= y < j2 ==> p.musicians@[i as int] < #[trigger] p.attendees@[y].tastes@.len(),
            decreases natt - j2,
        {
            if inst >= p.attendees[j2].tastes.len() {
                return false;
            }
            j2 = j2 + 1;
        }
        i = i + 1;
    }
    true
}

impl Engine {
    /// Build the engine for a problem and an initial solution, failing
    /// fast — with the exact reason — on any invalid input.
    #[verifier::loop_isolation(false)]
    pub fn new(p: &Problem, spec: Spec, solution: &Solution) -> (r: Result<Engine, EngineError>)
        ensures
            r is Ok <==> construct_error(p, solution) is None,
            r is Err ==> construct_error(p, solution) == Some(r->Err_0),
            r is Ok ==> (r->Ok_0).wf(p) && (r->Ok_0).place@ == solution.placements@ && (
            r->Ok_0).volumes@ == solution.volumes@ && (r->Ok_0).full == (spec is V2) && (
            r->Ok_0).with_volumes,
    {
        let nm: usize = p.musicians.len();
        let natt: usize = p.attendees.len();
        if !validate_problem(p) {
            return Err(EngineError::InvalidProblem);
        }
        if solution.placements.len() != nm || solution.volumes.len() != nm {
            return Err(EngineError::LengthMismatch);
        }
        let mut i: usize = 0;
        while i < nm
            invariant
                0 <= i <= nm,
                forall|x: int| 0 <= x < i ==> 0 <= #[trigger] solution.volumes@[x] <= MAX_VOLUME,
            decreases nm - i,
        {
            if solution.volumes[i] < 0 || solution.volumes[i] > MAX_VOLUME {
                return Err(EngineError::VolumeOutOfRange);
            }
            i = i + 1;
        }
        let mut i2: usize = 0;
        while i2 < nm
            invariant
                0 <= i2 <= nm,
                forall|x: int| 0 <= x < i2 ==> p.on_stage_spec(#[trigger] solution.placements@[x]),
            decreases nm - i2,
        {
            if !p.on_stage(solution.placements[i2]) {
                return Err(EngineError::OffStage);
            }
            i2 = i2 + 1;
        }
        let mut i3: usize = 0;
        while i3 < nm
            invariant
                0 <= i3 <= nm,
                forall|x: int, y: int|
                    0 <= x < i3 && 0 <= y < p.nm() && x != y ==> dist2(
                        #[trigger] solution.placements@[x],
                        #[trigger] solution.placements@[y],
                    ) > MUSICIAN_RADIUS_2,
            decreases nm - i3,
        {
            let mut k: usize = 0;
            while k < nm
                invariant
                    0 <= k <= nm,
                    forall|y: int|
                        0 <= y < k && y != i3 as int ==> dist2(
                            solution.placements@[i3 as int],
                            #[trigger] solution.placements@[y],
                        ) > MUSICIAN_RADIUS_2,
                decreases nm - k,
            {
                proof {
                    lemma_on_stage_coord_ok(p, solution.placements@[i3 as int]);
                    lemma_on_stage_coord_ok(p, solution.placements@[k as int]);
                }
                if k != i3 {
                    let d2v: i64 = solution.placements[i3].distance_squared(
                        solution.placements[k],
                    );
                    if d2v <= MUSICIAN_RADIUS_2 {
                        proof {
                            lemma_dist2_symm(
                                solution.placements@[i3 as int],
                                solution.placements@[k as int],
                            );
                        }
                        return Err(EngineError::Overlap);
                    }
                }
                k = k + 1;
            }
            proof {
                assert forall|y: int|
                    0 <= y < p.nm() && y != i3 as int implies dist2(
                    solution.placements@[i3 as int],
                    #[trigger] solution.placements@[y],
                ) > MUSICIAN_RADIUS_2 by {}
                assert forall|x: int, y: int|
                    0 <= x < i3 + 1 && 0 <= y < p.nm() && x != y implies dist2(
                    #[trigger] solution.placements@[x],
                    #[trigger] solution.placements@[y],
                ) > MUSICIAN_RADIUS_2 by {
                    if x == i3 as int {
                    } else {
                        lemma_dist2_symm(solution.placements@[x], solution.placements@[y]);
                        if y == i3 as int {
                            lemma_dist2_symm(
                                solution.placements@[i3 as int],
                                solution.placements@[x],
                            );
                        }
                    }
                }
            }
            i3 = i3 + 1;
        }
        // Build the state, then establish every derived quantity.
        let mut place: Vec<Point> = Vec::new();
        let mut q: Vec<i64> = Vec::new();
        let mut scores: Vec<i64> = Vec::new();
        let mut volumes: Vec<i64> = Vec::new();
        let mut nblock: Vec<Vec<u32>> = Vec::new();
        let mut b: usize = 0;
        while b < nm
            invariant
                0 <= b <= nm,
                place@.len() == b as int,
                q@.len() == b as int,
                scores@.len() == b as int,
                volumes@.len() == b as int,
                nblock@.len() == b as int,
                forall|x: int| 0 <= x < b ==> place@[x] == solution.placements@[x],
                forall|x: int| 0 <= x < b ==> #[trigger] q@[x] == Q_ONE,
                forall|x: int| 0 <= x < b ==> #[trigger] volumes@[x] == solution.volumes@[x],
                forall|x: int| 0 <= x < b ==> (#[trigger] nblock@[x])@.len() == p.natt(),
            decreases nm - b,
        {
            place.push(solution.placements[b]);
            q.push(Q_ONE);
            scores.push(0);
            volumes.push(solution.volumes[b]);
            let mut row: Vec<u32> = Vec::new();
            let mut c: usize = 0;
            while c < natt
                invariant
                    0 <= c <= natt,
                    row@.len() == c as int,
                decreases natt - c,
            {
                row.push(0);
                c = c + 1;
            }
            nblock.push(row);
            b = b + 1;
        }
        let mut e = Engine {
            full: matches!(spec, Spec::V2),
            place,
            q,
            nblock,
            scores,
            volumes,
            with_volumes: true,
            score: 0,
        };
        proof {
            assert(e.place@ =~= solution.placements@);
            assert(e.volumes@ =~= solution.volumes@);
            assert(e.shape_ok(p));
            assert(e.placement_ok(p));
        }
        e.cal_q(p);
        let mut ri: usize = 0;
        while ri < nm
            invariant
                0 <= ri <= nm,
                p.valid(),
                e.shape_ok(p),
                e.placement_ok(p),
                e.place@ == solution.placements@,
                e.volumes@ == solution.volumes@,
                e.full == (spec is V2),
                e.q_ok(p),
                forall|r: int| 0 <= r < ri ==> e.row_ok(p, r),
                forall|r: int| 0 <= r < ri ==> e.score_linked(p, r),
            decreases nm - ri,
        {
            let ghost pre = e;
            e.rebuild(p, ri);
            proof {
                assert forall|r: int| 0 <= r < ri + 1 implies e.row_ok(p, r) && e.score_linked(
                    p,
                    r,
                ) by {
                    if r < ri as int {
                        assert(pre.row_ok(p, r) && pre.score_linked(p, r));
                        assert(e.nblock@[r] == pre.nblock@[r]);
                        assert(e.scores@[r] == pre.scores@[r]);
                    }
                }
            }
            ri = ri + 1;
        }
        proof {
            lemma_wf_bounds(&e, p);
        }
        let ghost pre_total = e;
        e.update_score(p, true);
        proof {
            assert forall|r: int| 0 <= r < p.nm() implies e.row_ok(p, r) && e.score_linked(
                p,
                r,
            ) by {
                assert(pre_total.row_ok(p, r) && pre_total.score_linked(p, r));
                assert(e.nblock@[r] == pre_total.nblock@[r]);
            }
            assert(e.total_ok(p));
        }
        Ok(e)
    }

    /// Derive the answer from the engine state: current placements, and a
    /// volume of `MAX_VOLUME` for every musician with a positive score,
    /// muting the rest.
    #[verifier::loop_isolation(false)]
    pub fn to_solution(&self, p: &Problem) -> (r: Solution)
        requires
            self.shape_ok(p),
        ensures
            r.placements@ == self.place@,
            r.volumes@.len() == p.nm(),
            forall|i: int|
                0 <= i < p.nm() ==> #[trigger] r.volumes@[i] == (if self.scores@[i] <= 0 {
                    0i64
                } else {
                    MAX_VOLUME
                }),
    {
        let nm: usize = self.place.len();
        let mut placements: Vec<Point> = Vec::new();
        let mut volumes: Vec<i64> = Vec::new();
        let mut i: usize = 0;
        while i < nm
            invariant
                0 <= i <= nm,
                placements@.len() == i as int,
                volumes@.len() == i as int,
                forall|x: int| 0 <= x < i ==> placements@[x] == self.place@[x],
                forall|x: int|
                    0 <= x < i ==> #[trigger] volumes@[x] == (if self.scores@[x] <= 0 {
                        0i64
                    } else {
                        MAX_VOLUME
                    }),
            decreases nm - i,
        {
            placements.push(self.place[i]);
            if self.scores[i] <= 0 {
                volumes.push(0);
            } else {
                volumes.push(MAX_VOLUME);
            }
            i = i + 1;
        }
        proof {
            assert(placements@ =~= self.place@);
        }
        Solution { placements, volumes }
    }
}

/// The canonical counters of musician `i`: one per attendee, as a
/// function of the placement alone.
pub open spec fn canon_counters(p: &Problem, places: Seq<Point>, full: bool, i: int) -> Seq<u32> {
    Seq::new(p.natt() as nat, |j: int| nblock_spec(p, places, full, i, j) as u32)
}

/// The canonical per-musician score, a function of the placement alone.
pub open spec fn canon_score(p: &Problem, places: Seq<Point>, full: bool, i: int) -> int {
    score_upto(p, i, places[i], canon_counters(p, places, full, i), p.natt())
}

/// The canonical aggregate score over musicians `0 .. upto`, a function
/// of the placement, the variant and the volumes alone.
pub open spec fn canon_total(
    p: &Problem,
    places: Seq<Point>,
    full: bool,
    vols: Seq<i64>,
    withv: bool,
    upto: int,
) -> int
    decreases upto,
{
    if upto <= 0 {
        0
    } else {
        canon_total(p, places, full, vols, withv, upto - 1) + total_term(
            q_spec(p, places, full, upto - 1),
            canon_score(p, places, full, upto - 1),
            vols[upto - 1] as int,
            withv,
        )
    }
}

/// In a well-formed engine the stored aggregate equals the canonical
/// total: a pure function of placement, variant, volumes and mode.
pub proof fn lemma_engine_total_canonical(e: &Engine, p: &Problem)
    requires
        e.wf(p),
    ensures
        e.score == canon_total(p, e.place@, e.full, e.volumes@, e.with_volumes, p.nm()),
{
    lemma_total_matches_canon(e, p, p.nm());
}

proof fn lemma_total_matches_canon(e: &Engine, p: &Problem, upto: int)
    requires
        e.wf(p),
        0 <= upto <= p.nm(),
    ensures
        total_upto(e.q@, e.scores@, e.volumes@, e.with_volumes, upto) == canon_total(
            p,
            e.place@,
            e.full,
            e.volumes@,
            e.with_volumes,
            upto,
        ),
    decreases upto,
{
    if upto > 0 {
        lemma_total_matches_canon(e, p, upto - 1);
        let i = upto - 1;
        assert(e.score_linked(p, i));
        assert(e.row_ok(p, i));
        lemma_score_upto_ext(
            p,
            i,
            e.place@[i],
            e.nblock@[i]@,
            canon_counters(p, e.place@, e.full, i),
            p.natt(),
        );
    }
}

/// Incremental/from-scratch equivalence: two well-formed engines over the
/// same placement, variant, volumes and scoring mode hold exactly the
/// same aggregate score, the same occlusion counters, and the same
/// per-musician state — however each of them arrived there.
pub proof fn lemma_incremental_from_scratch(e1: &Engine, e2: &Engine, p: &Problem)
    requires
        e1.wf(p),
        e2.wf(p),
        e1.place@ == e2.place@,
        e1.full == e2.full,
        e1.volumes@ == e2.volumes@,
        e1.with_volumes == e2.with_volumes,
    ensures
        e1.score == e2.score,
        forall|i: int, j: int|
            0 <= i < p.nm() && 0 <= j < p.natt() ==> #[trigger] e1.nblock@[i]@[j]
                == #[trigger] e2.nblock@[i]@[j],
        forall|i: int| 0 <= i < p.nm() ==> #[trigger] e1.scores@[i] == e2.scores@[i],
        forall|i: int| 0 <= i < p.nm() ==> #[trigger] e1.q@[i] == e2.q@[i],
{
    lemma_engine_total_canonical(e1, p);
    lemma_engine_total_canonical(e2, p);
    assert forall|i: int, j: int|
        0 <= i < p.nm() && 0 <= j < p.natt() implies #[trigger] e1.nblock@[i]@[j]
        == #[trigger] e2.nblock@[i]@[j] by {
        assert(e1.row_ok(p, i) && e2.row_ok(p, i));
    }
    assert forall|i: int| 0 <= i < p.nm() implies #[trigger] e1.scores@[i] == e2.scores@[i] by {
        assert(e1.score_linked(p, i) && e2.score_linked(p, i));
        lemma_score_upto_ext(p, i, e1.place@[i], e1.nblock@[i]@, e2.nblock@[i]@, p.natt());
    }
}

/// Move inverse law: moving a musician away and back restores the
/// placement exactly, and with it — by `lemma_incremental_from_scratch` —
/// the aggregate score and every occlusion counter.
pub proof fn lemma_move_inverse(e0: &Engine, e1: &Engine, p: &Problem, i: int, to: Point)
    requires
        e0.wf(p),
        e1.wf(p),
        e0.full == e1.full,
        e0.volumes@ == e1.volumes@,
        e0.with_volumes == e1.with_volumes,
        0 <= i < p.nm(),
        e1.place@ == e0.place@.update(i, to).update(i, e0.place@[i]),
    ensures
        e1.score == e0.score,
        forall|r: int, j: int|
            0 <= r < p.nm() && 0 <= j < p.natt() ==> #[trigger] e1.nblock@[r]@[j]
                == #[trigger] e0.nblock@[r]@[j],
{
    assert(e1.place@ =~= e0.place@);
    lemma_incremental_from_scratch(e0, e1, p);
}

/// In trial mode the aggregate equals the with-volumes aggregate of the
/// derived solution: a muted musician contributes nothing either way, and
/// a positive contributor plays at full volume.
pub proof fn lemma_trial_total_is_volumes_total(
    p: &Problem,
    places: Seq<Point>,
    full: bool,
    vols: Seq<i64>,
    dvols: Seq<i64>,
    upto: int,
)
    requires
        0 <= upto <= p.nm(),
        forall|i: int|
            0 <= i < upto ==> #[trigger] dvols[i] == (if canon_score(p, places, full, i) <= 0 {
                0i64
            } else {
                MAX_VOLUME
            }),
        forall|i: int| 0 <= i < upto ==> q_spec(p, places, full, i) > 0,
    ensures
        canon_total(p, places, full, dvols, true, upto) == canon_total(
            p,
            places,
            full,
            vols,
            false,
            upto,
        ),
    decreases upto,
{
    if upto > 0 {
        lemma_trial_total_is_volumes_total(p, places, full, vols, dvols, upto - 1);
        let i = upto - 1;
        let qv = q_spec(p, places, full, i);
        let sv = canon_score(p, places, full, i);
        if sv <= 0 {
            assert(qv * sv <= 0) by (nonlinear_arith)
                requires qv > 0 && sv <= 0;
            assert(qv * sv * (dvols[i] as int) == 0) by (nonlinear_arith)
                requires dvols[i] == 0i64;
        } else {
            assert(qv * sv > 0) by (nonlinear_arith)
                requires qv > 0 && sv > 0;
            assert(qv * sv * (dvols[i] as int) == 10 * (qv * sv)) by (nonlinear_arith)
                requires dvols[i] == 10i64;
        }
    }
}

/// In a well-formed engine every stored per-musician score equals its
/// canonical value.
pub proof fn lemma_scores_canonical(e: &Engine, p: &Problem)
    requires
        e.wf(p),
    ensures
        forall|i: int|
            0 <= i < p.nm() ==> #[trigger] e.scores@[i] == canon_score(p, e.place@, e.full, i),
{
    assert forall|i: int|
        0 <= i < p.nm() implies #[trigger] e.scores@[i] == canon_score(
        p,
        e.place@,
        e.full,
        i,
    ) by {
        assert(e.score_linked(p, i));
        assert(e.row_ok(p, i));
        lemma_score_upto_ext(
            p,
            i,
            e.place@[i],
            e.nblock@[i]@,
            canon_counters(p, e.place@, e.full, i),
            p.natt(),
        );
    }
}

/// The trial-mode aggregate does not read the volumes.
pub proof fn lemma_trial_total_ignores_vols(
    p: &Problem,
    places: Seq<Point>,
    full: bool,
    v1: Seq<i64>,
    v2: Seq<i64>,
    upto: int,
)
    ensures
        canon_total(p, places, full, v1, false, upto) == canon_total(
            p,
            places,
            full,
            v2,
            false,
            upto,
        ),
    decreases upto,
{
    if upto > 0 {
        lemma_trial_total_ignores_vols(p, places, full, v1, v2, upto - 1);
    }
}

/// The canonical closeness factor is positive.
pub proof fn lemma_q_spec_pos(p: &Problem, places: Seq<Point>, full: bool, i: int)
    ensures
        q_spec(p, places, full, i) > 0,
{
    if full {
        lemma_q_upto_nonneg(p, places, i, places.len() as int);
    }
}

} // verus!
