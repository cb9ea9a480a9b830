//! The simulated-annealing driver: proposal generation, Metropolis
//! acceptance, temperature schedule, periodic full rebuild, and
//! best-solution tracking, all over the verified engine.

use vstd::prelude::*;
use crate::geometry::Point;
use crate::geometry::dist2;
use crate::engine::Engine;
use crate::engine::EngineError;
use crate::engine::construct_error;
use crate::engine::canon_total;
use crate::engine::canon_score;
use crate::engine::q_spec;
use crate::engine::lemma_engine_total_canonical;
use crate::engine::lemma_trial_total_is_volumes_total;
use crate::engine::lemma_q_spec_pos;
use crate::engine::lemma_wf_bounds;
use crate::engine::lemma_scores_canonical;
use crate::engine::lemma_trial_total_ignores_vols;
use crate::geometry::lemma_abs_mul_le;
use crate::problem::Problem;
use crate::problem::ProblemId;
use crate::problem::Spec;
use crate::problem::MUSICIAN_RADIUS_2;
use crate::solution::Solution;
use crate::rng::gen_range_u64;
use crate::rng::gen_range_i64;
use crate::rng::instant_now;
use crate::rng::elapsed_millis;
use crate::rng::rng_from_seed;
use crate::solver::ProgressRow;

verus! {

/// When an annealing run stops: after a fixed number of iterations, or
/// after a wall-clock budget in milliseconds.
#[derive(Clone, Copy, Debug, PartialEq, Eq, Structural)]
pub enum End {
    MaxIteration(usize),
    MaxDuration(u64),
}

/// The exact aggregate score of a solution, in millionths: the engine is
/// built from scratch and its with-volumes total returned.
pub fn score(problem: &Problem, problem_id: ProblemId, spec: Spec, solution: &Solution) -> (r:
    Result<i128, EngineError>)
    ensures
        r is Ok <==> construct_error(problem, solution) is None,
        r is Err ==> construct_error(problem, solution) == Some(r->Err_0),
        r is Ok ==> r->Ok_0 == canon_total(
            problem,
            solution.placements@,
            spec is V2,
            solution.volumes@,
            true,
            problem.nm(),
        ),
{
    let st = match Engine::new(problem, spec, solution) {
        Ok(e) => e,
        Err(er) => {
            return Err(er);
        },
    };
    proof {
        lemma_engine_total_canonical(&st, problem);
    }
    Ok(st.score)
}

/// The collision predicate: a candidate position for musician `id` is
/// invalid iff it leaves the shrunk stage or comes within the minimum
/// separation of any other musician's current position.
#[verifier::loop_isolation(false)]
pub fn collides(st: &Engine, p: &Problem, id: usize, pos: Point) -> (r: bool)
    requires
        p.valid(),
        st.shape_ok(p),
        st.placement_ok(p),
        id < p.nm(),
    ensures
        r == (!p.on_stage_spec(pos) || exists|j: int|
            0 <= j < p.nm() && j != id as int && dist2(pos, #[trigger] st.place@[j])
                <= MUSICIAN_RADIUS_2),
{
    if !p.on_stage(pos) {
        return true;
    }
    proof {
        crate::problem::lemma_on_stage_coord_ok(p, pos);
    }
    let nm: usize = st.place.len();
    let mut j: usize = 0;
    while j < nm
        invariant
            0 <= j <= nm,
            forall|x: int|
                0 <= x < j && x != id as int ==> dist2(pos, #[trigger] st.place@[x])
                    > MUSICIAN_RADIUS_2,
        decreases nm - j,
    {
        proof {
            crate::problem::lemma_on_stage_coord_ok(p, st.place@[j as int]);
        }
        if j != id {
            let d2v: i64 = pos.distance_squared(st.place[j]);
            if d2v <= MUSICIAN_RADIUS_2 {
                return true;
            }
        }
        j = j + 1;
    }
    false
}

/// The Metropolis acceptance decision for a proposal whose score changed
/// by `delta` at temperature `temp`: a non-negative change is always
/// kept; a negative one is kept with probability about `exp(delta/temp)`,
/// approximated in fixed point (base-2 with a linear fraction) against a
/// uniform 16-bit draw. At temperature zero no worsening is kept.
pub fn metropolis_accepts(rng: &mut rand::rngs::StdRng, delta: i128, temp: i128) -> (r: bool)
    requires
        -10_000_000_000_000_000_000_000_000_000_000 <= delta
            <= 10_000_000_000_000_000_000_000_000_000_000,
        0 <= temp <= 1_000_000_000_000_000_000,
    ensures
        delta >= 0 ==> r,
        delta < 0 && temp <= 0 ==> !r,
{
    if delta >= 0 {
        return true;
    }
    if temp <= 0 {
        return false;
    }
    proof {
        lemma_abs_mul_le(40, temp as int, 40, 1_000_000_000_000_000_000);
    }
    if delta <= -(40 * temp) {
        return false;
    }
    let v: u64 = gen_range_u64(rng, 0, 65536);
    let u: i128 = (v as i128) + 1;
    // k = floor(log2(u)), pw = 2^k
    let mut k: i128 = 0;
    let mut pw: i128 = 1;
    let mut x: i128 = u;
    while x > 1 && k < 16
        invariant
            0 <= k <= 16,
            pw == crate::intmath::pow2(k as int),
            1 <= x <= 65536,
        decreases 16 - k,
    {
        proof {
            crate::intmath::lemma_pow2_le_16(k as int);
            crate::intmath::lemma_pow2_le_16(k as int + 1);
        }
        x = x / 2;
        k = k + 1;
        pw = pw * 2;
    }
    proof {
        crate::intmath::lemma_pow2_le_16(k as int);
    }
    // ln(u / 2^16) ~ ln2 * (k - 16 + (u - pw) / pw); accept the proposal
    // iff the draw falls below exp(delta / temp).
    proof {
        lemma_abs_mul_le(16 - k as int, pw as int, 16, 65536);
    }
    let m: i128 = (16 - k) * pw + pw - u;
    proof {
        lemma_abs_mul_le(temp as int, 693_147, 1_000_000_000_000_000_000, 693_147);
        lemma_abs_mul_le(
            (temp as int) * 693_147,
            m as int,
            693_147_000_000_000_000_000_000,
            2_000_000,
        );
        lemma_abs_mul_le(
            -(delta as int),
            1_000_000 * (pw as int),
            40_000_000_000_000_000_000,
            65_536_000_000,
        );
    }
    let lhs: i128 = temp * 693_147 * m;
    let rhs: i128 = (-delta) * (1_000_000 * pw);
    rhs < lhs
}

/// Run simulated annealing from an initial solution. Returns the best
/// score seen, the solution that achieved it, and (as ghost data) the
/// trace of every accepted score.
///
/// The contract pins the run's guarantees: the returned score is the
/// exact with-volumes score of the returned solution; it is at least the
/// initial solution's score; and it is at least every accepted
/// intermediate score of the trace. With `End::MaxIteration(k)` the loop
/// body runs at most `k` times.
#[verifier::loop_isolation(false)]
pub fn run_sa(
    rng: &mut rand::rngs::StdRng,
    problem: &Problem,
    spec: Spec,
    solution: &Solution,
    temp0: Option<i64>,
    end: End,
) -> (r: Result<(i128, Solution, Vec<ProgressRow>, Ghost<Seq<int>>), EngineError>)
    ensures
        r is Ok <==> construct_error(problem, solution) is None,
        r is Err ==> construct_error(problem, solution) == Some(r->Err_0),
        r is Ok ==> (r->Ok_0).0 == canon_total(
            problem,
            (r->Ok_0).1.placements@,
            spec is V2,
            (r->Ok_0).1.volumes@,
            true,
            problem.nm(),
        ),
        r is Ok ==> (r->Ok_0).0 >= canon_total(
            problem,
            solution.placements@,
            spec is V2,
            solution.volumes@,
            true,
            problem.nm(),
        ),
        r is Ok ==> (forall|x: int|
            0 <= x < (r->Ok_0).3@.len() ==> #[trigger] (r->Ok_0).3@[x] <= (r->Ok_0).0),
        r is Ok ==> (forall|x: int|
            0 <= x < (r->Ok_0).2@.len() ==> (#[trigger] (r->Ok_0).2@[x]).score <= (r->Ok_0).0
                && (r->Ok_0).2@[x].best <= (r->Ok_0).0),
        r is Ok ==> (r->Ok_0).1.placements@.len() == problem.nm() && (
        r->Ok_0).1.volumes@.len() == problem.nm(),
        r is Ok ==> (end matches End::MaxIteration(k) ==> (r->Ok_0).3@.len() <= k + 1),
{
    let ghost full = spec is V2;
    let mut st = match Engine::new(problem, spec, solution) {
        Ok(e) => e,
        Err(er) => {
            return Err(er);
        },
    };
    let nm: usize = st.place.len();
    let ghost init_vol_score = st.score;
    proof {
        lemma_engine_total_canonical(&st, problem);
        lemma_wf_bounds(&st, problem);
    }
    // Proposals are judged by the trial metric.
    let ghost pre0 = st;
    st.update_score(problem, false);
    proof {
        restore_wf(&pre0, &st, problem);
        lemma_engine_total_canonical(&st, problem);
        lemma_trial_ge_volumes(problem, st.place@, full, st.volumes@, problem.nm());
    }
    proof {
        lemma_total_in_range(&st, problem);
    }
    let mut sc: i128 = st.score;
    let mut best: i128 = sc;
    let mut best_solution: Solution = derive_best(&st, problem);
    let ghost mut hist: Seq<int> = seq![sc as int];
    let mut rows: Vec<ProgressRow> = Vec::new();
    let mut naccept_positive: u64 = 0;
    let mut naccept_negative: u64 = 0;
    let mut ntotal: u64 = 0;
    if nm == 0 {
        return Ok((best, best_solution, rows, Ghost(hist)));
    }
    let max_iter: usize = match end {
        End::MaxIteration(k) => k,
        End::MaxDuration(_) => usize::MAX,
    };
    let budget_ms: u64 = match end {
        End::MaxDuration(ms) => ms,
        End::MaxIteration(_) => 0,
    };
    let timer = instant_now();
    let temp0v: i128 = resolve_temp0(temp0, sc, nm);
    let mut temp: i128 = temp0v;
    let mut niter: usize = 0;
    while niter < max_iter
        invariant
            st.wf(problem),
            st.full == full,
            !st.with_volumes,
            problem.nm() == nm as int,
            1 <= nm,
            sc == st.score,
            sc <= best,
            best == canon_total(
                problem,
                best_solution.placements@,
                full,
                best_solution.volumes@,
                true,
                nm as int,
            ),
            best >= canon_total(
                problem,
                solution.placements@,
                full,
                solution.volumes@,
                true,
                nm as int,
            ),
            best_solution.placements@.len() == nm as int,
            best_solution.volumes@.len() == nm as int,
            forall|x: int| 0 <= x < hist.len() ==> #[trigger] hist[x] <= best,
            forall|x: int|
                0 <= x < rows@.len() ==> (#[trigger] rows@[x]).score <= best && rows@[x].best
                    <= best,
            naccept_positive <= ntotal,
            naccept_negative <= ntotal,
            ntotal <= niter as u64,
            0 <= temp <= 1_000_000_000_000_000_000,
            -5_000_000_000_000_000_000_000_000_000_000 <= sc
                <= 5_000_000_000_000_000_000_000_000_000_000,
            hist.len() <= 1 + niter as int,
            niter <= max_iter,
        decreases max_iter - niter,
    {
        niter = niter + 1;
        // Temperature schedule: linear from temp0 down to zero over the
        // budget; the run stops the moment it would go below zero.
        if niter % 1000 == 0 {
            match end {
                End::MaxIteration(k) => {
                    if k > 0 {
                        proof {
                            lemma_abs_mul_le(
                                temp0v as int,
                                (k - niter) as int,
                                1_000_000_000_000_000_000,
                                0x1_0000_0000_0000_0000,
                            );
                        }
                        temp = temp0v * (((k - niter) as i128)) / (k as i128);
                    }
                },
                End::MaxDuration(ms) => {
                    let el: u64 = elapsed_millis(&timer);
                    if el >= ms {
                        return Ok((best, best_solution, rows, Ghost(hist)));
                    }
                    proof {
                        lemma_abs_mul_le(
                            temp0v as int,
                            (ms - el) as int,
                            1_000_000_000_000_000_000,
                            0x1_0000_0000_0000_0000,
                        );
                    }
                    temp = temp0v * (((ms - el) as i128)) / (ms as i128);
                },
            }
            if temp < 0 {
                temp = 0;
            }
            if temp > 1_000_000_000_000_000_000 {
                temp = 1_000_000_000_000_000_000;
            }
        }
        // Progress snapshot: scores, temperature and the acceptance
        // counts since the last row.
        if niter % 10_000 == 0 {
            rows.push(
                ProgressRow {
                    iteration: niter as u64,
                    score: sc,
                    best,
                    temperature: temp,
                    accepted_positive: naccept_positive,
                    accepted_negative: naccept_negative,
                    proposals: ntotal,
                },
            );
            naccept_positive = 0;
            naccept_negative = 0;
            ntotal = 0;
        }
        // Periodic full rebuild: in exact arithmetic it provably leaves
        // the score unchanged, and bounds nothing — it is kept as the
        // scheduled maintenance step of the design.
        if niter % 100_000 == 0 {
            let sol_now = st.to_solution(problem);
            proof {
                lemma_derived_fits(&st, problem, &sol_now);
            }
            let mut st2 = match Engine::new(problem, spec, &sol_now) {
                Ok(e) => e,
                Err(_) => {
                    proof {
                        assert(false);
                    }
                    return Ok((best, best_solution, rows, Ghost(hist)));
                },
            };
            let ghost pre1 = st2;
            proof {
                lemma_wf_bounds(&st2, problem);
            }
            st2.update_score(problem, false);
            proof {
                restore_wf(&pre1, &st2, problem);
                lemma_engine_total_canonical(&st2, problem);
                lemma_engine_total_canonical(&st, problem);
                lemma_trial_total_ignores_vols(
                    problem,
                    st.place@,
                    full,
                    st.volumes@,
                    st2.volumes@,
                    problem.nm(),
                );
                assert(st2.score == sc);
            }
            st = st2;
        }
        // Proposal: occasionally a pairwise swap, else a move.
        if gen_range_u64(rng, 0, 10) == 0 {
            if nm < 2 {
                continue ;
            }
            let a: usize = gen_range_u64(rng, 0, nm as u64) as usize;
            let b: usize = gen_range_u64(rng, 0, nm as u64) as usize;
            if a == b {
                continue ;
            }
            let ghost pl_before = st.place@;
            let ghost pre_prop = st;
            st.do_swap(problem, a, b);
            let sc2: i128 = st.score;
            proof {
                lemma_total_in_range(&st, problem);
            }
            ntotal = ntotal + 1;
            let accept: bool = if sc2 >= sc {
                true
            } else {
                metropolis_accepts(rng, sc2 - sc, temp)
            };
            if accept {
                if sc2 >= sc {
                    naccept_positive = naccept_positive + 1;
                } else {
                    naccept_negative = naccept_negative + 1;
                }
                sc = sc2;
                proof {
                    lemma_total_in_range(&st, problem);
                }
                if sc > best {
                    best = sc;
                    best_solution = derive_best(&st, problem);
                }
                proof {
                    hist = hist.push(sc as int);
                }
            } else {
                st.do_swap(problem, a, b);
                proof {
                    assert(st.place@ =~= pl_before);
                    lemma_engine_total_canonical(&st, problem);
                    lemma_engine_total_canonical(&pre_prop, problem);
                    assert(st.score == sc);
                }
            }
            continue ;
        }
        let id: usize = gen_range_u64(rng, 0, nm as u64) as usize;
        let p0: Point = st.place[id];
        let pos: Point = propose_position(rng, &st, problem, id);
        if collides(&st, problem, id, pos) {
            continue ;
        }
        let ghost pl_before = st.place@;
        let ghost pre_prop = st;
        st.do_move(problem, id, pos);
        let sc2: i128 = st.score;
        proof {
            lemma_total_in_range(&st, problem);
        }
        ntotal = ntotal + 1;
        let accept: bool = if sc2 >= sc {
            true
        } else {
            metropolis_accepts(rng, sc2 - sc, temp)
        };
        if accept {
            if sc2 >= sc {
                naccept_positive = naccept_positive + 1;
            } else {
                naccept_negative = naccept_negative + 1;
            }
            sc = sc2;
            proof {
                lemma_total_in_range(&st, problem);
            }
            if sc > best {
                best = sc;
                best_solution = derive_best(&st, problem);
            }
            proof {
                hist = hist.push(sc as int);
            }
        } else {
            proof {
                assert forall|kk: int|
                    0 <= kk < nm as int && kk != id as int implies dist2(
                    p0,
                    #[trigger] st.place@[kk],
                ) > MUSICIAN_RADIUS_2 by {
                    assert(st.place@[kk] == pl_before[kk]);
                }
            }
            st.do_move(problem, id, p0);
            proof {
                assert(st.place@ =~= pl_before);
                lemma_engine_total_canonical(&st, problem);
                lemma_engine_total_canonical(&pre_prop, problem);
                assert(st.score == sc);
            }
        }
    }
    Ok((best, best_solution, rows, Ghost(hist)))
}

/// Candidate position for a move of musician `id`: a full random teleport
/// onto the stage, a bounded directional search for the farthest
/// non-colliding point, or a short local jitter with a squared-biased
/// distance. Any returned point is screened by `collides` afterwards.
#[verifier::loop_isolation(false)]
fn propose_position(rng: &mut rand::rngs::StdRng, st: &Engine, p: &Problem, id: usize) -> (r:
    Point)
    requires
        p.valid(),
        st.shape_ok(p),
        st.placement_ok(p),
        id < p.nm(),
{
    let p0: Point = st.place[id];
    let kind: u64 = gen_range_u64(rng, 0, 10);
    if kind == 0 {
        return p.random_point_on_stage(rng);
    }
    // A squared-uniform distance biases toward short steps.
    let u: i64 = gen_range_i64(rng, 0, 1001);
    proof {
        assert(0 <= 40 * u && 40 * u * u <= 40_000_000) by (nonlinear_arith)
            requires 0 <= u <= 1000;
        assert(0 <= (40 * u) * u) by (nonlinear_arith)
            requires 0 <= 40 * u && 0 <= u;
        crate::problem::lemma_on_stage_coord_ok(p, st.place@[id as int]);
    }
    let dist: i64 = 40 * u * u / 1_000_000;
    let dx: i64 = gen_range_i64(rng, -1000, 1001);
    let dy: i64 = gen_range_i64(rng, -1000, 1001);
    if kind == 1 {
        // Binary search along the direction for the farthest point that
        // does not collide, within the capped radius.
        let mut lo: i64 = 0;
        let mut hi: i64 = dist;
        while hi - lo > 1
            invariant
                0 <= lo <= hi <= 40,
            decreases hi - lo,
        {
            let mid: i64 = lo + (hi - lo) / 2;
            proof {
                lemma_abs_mul_le(mid as int, dx as int, 40, 1000);
                lemma_abs_mul_le(mid as int, dy as int, 40, 1000);
            }
            let cand = Point { x: p0.x + mid * dx / 1000, y: p0.y + mid * dy / 1000 };
            if collides(st, p, id, cand) {
                hi = mid - 1;
                if hi < lo {
                    hi = lo;
                }
            } else {
                lo = mid;
            }
        }
        proof {
            lemma_abs_mul_le(lo as int, dx as int, 40, 1000);
            lemma_abs_mul_le(lo as int, dy as int, 40, 1000);
        }
        return Point { x: p0.x + lo * dx / 1000, y: p0.y + lo * dy / 1000 };
    }
    proof {
        lemma_abs_mul_le(dist as int, dx as int, 40, 1000);
        lemma_abs_mul_le(dist as int, dy as int, 40, 1000);
    }
    Point { x: p0.x + dist * dx / 1000, y: p0.y + dist * dy / 1000 }
}

/// The starting temperature: the caller's, clamped to the range the
/// acceptance test supports, or else derived from the initial score
/// magnitude over the square root of the musician count.
fn resolve_temp0(temp0: Option<i64>, sc: i128, nm: usize) -> (r: i128)
    requires
        nm >= 1,
        -5_000_000_000_000_000_000_000_000_000_000 <= sc
            <= 5_000_000_000_000_000_000_000_000_000_000,
    ensures
        0 <= r <= 1_000_000_000_000_000_000,
{
    match temp0 {
        Some(t) => {
            if t < 0 {
                0
            } else if t as i128 > 1_000_000_000_000_000_000 {
                1_000_000_000_000_000_000
            } else {
                t as i128
            }
        },
        None => {
            let mag: i128 = if sc >= 0 {
                sc
            } else {
                -sc
            };
            let root_u: u64 = crate::intmath::isqrt(if nm > 4_000_000_000 {
                4_000_000_000u64
            } else {
                nm as u64
            });
            proof {
                if root_u > 100_000 {
                    assert((root_u as int) * (root_u as int) > 4_000_000_000)
                        by (nonlinear_arith)
                        requires root_u as int > 100_000;
                }
            }
            let root: i64 = root_u as i64;
            let root_pos: i128 = if root < 1 {
                1
            } else {
                root as i128
            };
            let t: i128 = mag / root_pos;
            if t > 1_000_000_000_000_000_000 {
                1_000_000_000_000_000_000
            } else {
                t
            }
        },
    }
}

/// The best solution snapshot: the engine's derived solution, whose
/// with-volumes score provably equals the engine's trial score.
fn derive_best(st: &Engine, p: &Problem) -> (r: Solution)
    requires
        st.wf(p),
        !st.with_volumes,
    ensures
        r.placements@.len() == p.nm(),
        r.volumes@.len() == p.nm(),
        st.score == canon_total(p, r.placements@, st.full, r.volumes@, true, p.nm()),
{
    let r = st.to_solution(p);
    proof {
        lemma_engine_total_canonical(st, p);
        crate::engine::lemma_scores_canonical(st, p);
        assert forall|i: int| 0 <= i < p.nm() implies q_spec(p, st.place@, st.full, i) > 0 by {
            lemma_q_spec_pos(p, st.place@, st.full, i);
        }
        lemma_trial_total_is_volumes_total(
            p,
            st.place@,
            st.full,
            st.volumes@,
            r.volumes@,
            p.nm(),
        );
    }
    r
}

/// A derived solution always satisfies the construction conditions.
proof fn lemma_derived_fits(st: &Engine, p: &Problem, sol: &Solution)
    requires
        st.wf(p),
        sol.placements@ == st.place@,
        sol.volumes@.len() == p.nm(),
        forall|i: int|
            0 <= i < p.nm() ==> #[trigger] sol.volumes@[i] == (if st.scores@[i] <= 0 {
                0i64
            } else {
                crate::solution::MAX_VOLUME
            }),
    ensures
        construct_error(p, sol) is None,
{
}

/// After `update_score` the rest of the invariant still holds.
proof fn restore_wf(pre: &Engine, post: &Engine, p: &Problem)
    requires
        pre.wf(p),
        post.full == pre.full,
        post.place@ == pre.place@,
        post.q@ == pre.q@,
        post.nblock@ == pre.nblock@,
        post.scores@ == pre.scores@,
        post.volumes@ == pre.volumes@,
        post.score == crate::engine::total_upto(
            pre.q@,
            pre.scores@,
            pre.volumes@,
            post.with_volumes,
            p.nm(),
        ),
    ensures
        post.wf(p),
{
    assert forall|r: int| 0 <= r < p.nm() implies post.row_ok(p, r) && post.score_linked(
        p,
        r,
    ) by {
        assert(pre.row_ok(p, r) && pre.score_linked(p, r));
        assert(post.nblock@[r] == pre.nblock@[r]);
    }
}

/// The trial total dominates any with-volumes total over the same state.
proof fn lemma_trial_ge_volumes(
    p: &Problem,
    places: Seq<Point>,
    full: bool,
    vols: Seq<i64>,
    upto: int,
)
    requires
        0 <= upto <= p.nm(),
        forall|i: int| 0 <= i < upto ==> 0 <= #[trigger] vols[i] <= crate::solution::MAX_VOLUME,
    ensures
        canon_total(p, places, full, vols, false, upto) >= canon_total(
            p,
            places,
            full,
            vols,
            true,
            upto,
        ),
    decreases upto,
{
    if upto > 0 {
        lemma_trial_ge_volumes(p, places, full, vols, upto - 1);
        let i = upto - 1;
        let qv = q_spec(p, places, full, i);
        let sv = canon_score(p, places, full, i);
        let vv = vols[i] as int;
        if qv * sv >= 0 {
            assert(qv * sv * vv <= 10 * (qv * sv)) by (nonlinear_arith)
                requires qv * sv >= 0 && 0 <= vv <= 10;
        } else {
            assert(qv * sv * vv <= 0) by (nonlinear_arith)
                requires qv * sv < 0 && 0 <= vv <= 10;
        }
    }
}

/// The engine's aggregate stays within the range the acceptance test
/// tolerates.
proof fn lemma_total_in_range(st: &Engine, p: &Problem)
    requires
        st.wf(p),
    ensures
        -5_000_000_000_000_000_000_000_000_000_000 <= st.score
            <= 5_000_000_000_000_000_000_000_000_000_000,
{
    lemma_wf_bounds(st, p);
    crate::engine::lemma_total_upto_bound(
        st.q@,
        st.scores@,
        st.volumes@,
        st.with_volumes,
        p.nm(),
    );
    assert(p.nm() * (crate::engine::TERM_MAX as int)
        <= 10_000 * 100_100_000_000_000_000_000_000_000int) by (nonlinear_arith)
        requires 0 <= p.nm() <= 10_000 && crate::engine::TERM_MAX
            == 100_100_000_000_000_000_000_000_000i128;
}


/// The decimal digit character of `d` (for `0 <= d <= 9`).
pub open spec fn digit_char(d: int) -> char {
    if d == 0 {
        '0'
    } else if d == 1 {
        '1'
    } else if d == 2 {
        '2'
    } else if d == 3 {
        '3'
    } else if d == 4 {
        '4'
    } else if d == 5 {
        '5'
    } else if d == 6 {
        '6'
    } else if d == 7 {
        '7'
    } else if d == 8 {
        '8'
    } else {
        '9'
    }
}

/// The decimal digits of a non-negative value, most significant first.
pub open spec fn dec_digits(v: int) -> Seq<char>
    decreases v,
{
    if v < 10 {
        seq![digit_char(v)]
    } else {
        dec_digits(v / 10) + seq![digit_char(v % 10)]
    }
}

/// One decimal digit as a string slice.
fn digit_str(d: u64) -> (r: &'static str)
    requires
        d < 10,
    ensures
        r@ == seq![digit_char(d as int)],
{
    proof {
        reveal_strlit("0");
        reveal_strlit("1");
        reveal_strlit("2");
        reveal_strlit("3");
        reveal_strlit("4");
        reveal_strlit("5");
        reveal_strlit("6");
        reveal_strlit("7");
        reveal_strlit("8");
        reveal_strlit("9");
    }
    let r: &'static str = if d == 0 {
        "0"
    } else if d == 1 {
        "1"
    } else if d == 2 {
        "2"
    } else if d == 3 {
        "3"
    } else if d == 4 {
        "4"
    } else if d == 5 {
        "5"
    } else if d == 6 {
        "6"
    } else if d == 7 {
        "7"
    } else if d == 8 {
        "8"
    } else {
        "9"
    };
    proof {
        assert(r@ =~= seq![digit_char(d as int)]);
    }
    r
}

/// A non-negative value in decimal.
fn u64_dec(v: u64) -> (r: String)
    ensures
        r@ == dec_digits(v as int),
    decreases v,
{
    if v < 10 {
        String::from_str(digit_str(v))
    } else {
        let mut s = u64_dec(v / 10);
        s.append(digit_str(v % 10));
        s
    }
}

/// The descriptive run name: starting temperature and budget.
pub open spec fn name_chars(temp0: Option<i64>, end: End) -> Seq<char> {
    let t: int = match temp0 {
        Some(t) => if t < 0 {
            0
        } else {
            t as int
        },
        None => 0,
    };
    "sa-temp0-"@ + dec_digits(t) + "-"@ + match end {
        End::MaxIteration(k) => "iter-"@ + dec_digits(k as int),
        End::MaxDuration(ms) => "duration-"@ + dec_digits(ms as int / 1000),
    }
}

/// Build the run name from the solver's parameters.
pub fn solver_name(temp0: Option<i64>, end: End) -> (r: String)
    ensures
        r@ == name_chars(temp0, end),
{
    let t: u64 = match temp0 {
        Some(t) => if t < 0 {
            0
        } else {
            t as u64
        },
        None => 0,
    };
    let mut s = String::from_str("sa-temp0-");
    let td = u64_dec(t);
    s.append(td.as_str());
    s.append("-");
    match end {
        End::MaxIteration(k) => {
            s.append("iter-");
            let kd = u64_dec(k as u64);
            s.append(kd.as_str());
        },
        End::MaxDuration(ms) => {
            s.append("duration-");
            let sd = u64_dec(ms / 1000);
            s.append(sd.as_str());
        },
    }
    s
}

/// The simulated-annealing solver: a problem, a temperature, a budget,
/// and an initial solution.
pub struct SolverSa {
    pub problem_id: ProblemId,
    pub problem: Problem,
    pub temp0: Option<i64>,
    pub end: End,
    pub initial_solution: Solution,
}

impl SolverSa {
    /// A random non-colliding full-volume placement, by rejection
    /// sampling under an attempt budget. `None` when the budget ran out
    /// before every musician found room.
    #[verifier::loop_isolation(false)]
    fn initial_solution(problem: &Problem, rng: &mut rand::rngs::StdRng) -> (r: Option<Solution>)
        requires
            problem.valid(),
        ensures
            r is Some ==> construct_error(problem, &r->0) is None,
            r is Some ==> forall|i: int|
                0 <= i < (r->0).volumes@.len() ==> #[trigger] (r->0).volumes@[i]
                    == crate::solution::MAX_VOLUME,
    {
        let nm: usize = problem.musicians.len();
        let mut placements: Vec<Point> = Vec::new();
        let mut attempts: u64 = 0;
        let max_attempts: u64 = 1000 * (nm as u64) + 1000;
        while placements.len() < nm && attempts < max_attempts
            invariant
                placements@.len() <= nm as int,
                forall|x: int|
                    0 <= x < placements@.len() ==> problem.on_stage_spec(
                        #[trigger] placements@[x],
                    ),
                forall|x: int, y: int|
                    0 <= x < placements@.len() && 0 <= y < placements@.len() && x != y ==> dist2(
                        #[trigger] placements@[x],
                        #[trigger] placements@[y],
                    ) > MUSICIAN_RADIUS_2,
            decreases max_attempts - attempts,
        {
            attempts = attempts + 1;
            let cand: Point = problem.random_point_on_stage(rng);
            proof {
                crate::problem::lemma_on_stage_coord_ok(problem, cand);
            }
            let mut ok: bool = true;
            let mut j: usize = 0;
            let n: usize = placements.len();
            while j < n
                invariant
                    0 <= j <= n,
                    n == placements@.len(),
                    ok ==> forall|x: int|
                        0 <= x < j ==> dist2(cand, #[trigger] placements@[x])
                            > MUSICIAN_RADIUS_2,
                decreases n - j,
            {
                proof {
                    crate::problem::lemma_on_stage_coord_ok(problem, placements@[j as int]);
                }
                let d2v: i64 = cand.distance_squared(placements[j]);
                if d2v <= MUSICIAN_RADIUS_2 {
                    ok = false;
                }
                j = j + 1;
            }
            if ok {
                placements.push(cand);
                proof {
                    assert forall|x: int, y: int|
                        0 <= x < placements@.len() && 0 <= y < placements@.len() && x != y
                        implies dist2(
                        #[trigger] placements@[x],
                        #[trigger] placements@[y],
                    ) > MUSICIAN_RADIUS_2 by {
                        if y == placements@.len() - 1 {
                            crate::engine::lemma_dist2_symm(cand, placements@[x]);
                        }
                    }
                }
            }
        }
        if placements.len() < nm {
            return None;
        }
        let mut volumes: Vec<i64> = Vec::new();
        let mut i: usize = 0;
        while i < nm
            invariant
                0 <= i <= nm,
                volumes@.len() == i as int,
                forall|x: int| 0 <= x < i ==> #[trigger] volumes@[x] == crate::solution::MAX_VOLUME,
            decreases nm - i,
        {
            volumes.push(crate::solution::MAX_VOLUME);
            i = i + 1;
        }
        Some(Solution { placements, volumes })
    }

    /// Build a solver for an already-loaded problem, sampling an initial
    /// placement when none is supplied. Fails when the problem is invalid
    /// or the sampler found no room for every musician.
    pub fn new(
        problem_id: ProblemId,
        problem: Problem,
        temp0: Option<i64>,
        end: End,
        initial_solution: Option<Solution>,
    ) -> (r: Result<SolverSa, EngineError>)
        ensures
            !problem.valid() ==> r == Err::<SolverSa, EngineError>(EngineError::InvalidProblem),
            problem.valid() && initial_solution is Some ==> r is Ok,
            r is Ok ==> {
                let solver = r->Ok_0;
                &&& solver.problem == problem
                &&& solver.problem.valid()
                &&& solver.problem_id == problem_id
                &&& solver.temp0 == temp0
                &&& solver.end == end
            },
            r is Ok && initial_solution is Some ==> (r->Ok_0).initial_solution
                == initial_solution->0,
            r is Ok && initial_solution is None ==> construct_error(
                &(r->Ok_0).problem,
                &(r->Ok_0).initial_solution,
            ) is None && (forall|i: int|
                0 <= i < (r->Ok_0).initial_solution.volumes@.len()
                    ==> #[trigger] (r->Ok_0).initial_solution.volumes@[i]
                    == crate::solution::MAX_VOLUME),
    {
        if !crate::engine::validate_problem(&problem) {
            return Err(EngineError::InvalidProblem);
        }
        let initial: Solution = match initial_solution {
            Some(s) => s,
            None => {
                let mut rng = rng_from_seed();
                match Self::initial_solution(&problem, &mut rng) {
                    Some(s) => s,
                    None => {
                        return Err(EngineError::Overlap);
                    },
                }
            },
        };
        Ok(SolverSa { problem_id, problem, temp0, end, initial_solution: initial })
    }
}

impl crate::solver::Solver for SolverSa {
    fn problem_id(&self) -> (r: ProblemId)
        ensures
            r == self.problem_id,
    {
        self.problem_id
    }

    fn name(&self) -> (r: String)
        ensures
            r@ == name_chars(self.temp0, self.end),
    {
        solver_name(self.temp0, self.end)
    }

    /// Run the annealing on the held problem and initial solution. A
    /// returned record carries the held problem id and the exact
    /// with-volumes score of its own placements and volumes, no worse
    /// than the initial solution's score.
    fn solve(&mut self) -> (r: Result<crate::solver::Solved, EngineError>)
        ensures
            r is Ok <==> construct_error(&old(self).problem, &old(self).initial_solution)
                is None,
            r is Ok ==> {
                let solved = r->Ok_0;
                &&& solved.problem_id == old(self).problem_id
                &&& solved.score == canon_total(
                    &old(self).problem,
                    solved.placements@,
                    crate::problem::spec_of_id(old(self).problem_id) is V2,
                    solved.volumes@,
                    true,
                    old(self).problem.nm(),
                )
                &&& solved.score >= canon_total(
                    &old(self).problem,
                    old(self).initial_solution.placements@,
                    crate::problem::spec_of_id(old(self).problem_id) is V2,
                    old(self).initial_solution.volumes@,
                    true,
                    old(self).problem.nm(),
                )
                &&& (forall|x: int|
                    0 <= x < solved.progress@.len()
                        ==> (#[trigger] solved.progress@[x]).score <= solved.score
                        && solved.progress@[x].best <= solved.score)
            },
    {
        let mut rng = rng_from_seed();
        let spec: Spec = Spec::from(self.problem_id);
        let (score, solution, progress, _hist) = match run_sa(
            &mut rng,
            &self.problem,
            spec,
            &self.initial_solution,
            self.temp0,
            self.end,
        ) {
            Ok(t) => t,
            Err(er) => {
                return Err(er);
            },
        };
        let Solution { placements, volumes } = solution;
        Ok(
            crate::solver::Solved {
                problem_id: self.problem_id,
                solver_name: solver_name(self.temp0, self.end),
                score,
                placements,
                volumes,
                progress,
            },
        )
    }
}

} // verus!
