use icfp2023::Point;
use icfp2023::problem::{Attendee, Pillar, Problem, Spec};
use icfp2023::solution::Solution;
use icfp2023::solver_sa::{run_sa, score, End};
use icfp2023::rng::rng_from_seed;

fn example_problem() -> Problem {
    Problem {
        room_width: 2000,
        room_height: 5000,
        stage_width: 1000,
        stage_height: 200,
        stage_bottom_left: Point::new(500, 0),
        musicians: vec![0, 1, 0],
        attendees: vec![
            Attendee { x: 100, y: 500, tastes: vec![1000, -1000] },
            Attendee { x: 200, y: 1000, tastes: vec![200, 200] },
            Attendee { x: 1100, y: 800, tastes: vec![800, 1500] },
        ],
        pillars: vec![Pillar { center: Point::new(345, 255), radius: 4 }],
    }
}

fn example_solution() -> Solution {
    Solution {
        placements: vec![Point::new(590, 10), Point::new(1100, 100), Point::new(1100, 150)],
        volumes: vec![1, 1, 1],
    }
}

#[test]
fn sa_score_example_problem() {
    let problem = example_problem();
    let solution = example_solution();
    let v1 = score(&problem, 0, Spec::V1, &solution).unwrap();
    // exact: with unit closeness factors the lightning score is integral
    assert_eq!(v1, 5_343_000_000);
    let expected1: i128 = 5_343_000_000;
    assert!((v1 - expected1).abs() * 100 <= expected1);
    let v2 = score(&problem, 0, Spec::V2, &solution).unwrap();
    let expected2: i128 = 3_270_000_000;
    assert!((v2 - expected2).abs() * 100 <= expected2);
}

#[test]
fn run_sa_improves_or_keeps() {
    let problem = example_problem();
    let solution = example_solution();
    let initial = score(&problem, 0, Spec::V1, &solution).unwrap();
    let mut rng = rng_from_seed();
    let (best, best_solution, _rows, _hist) = run_sa(
        &mut rng,
        &problem,
        Spec::V1,
        &solution,
        Some(100),
        End::MaxIteration(2000),
    )
    .unwrap();
    assert!(best >= initial);
    // the returned score is the exact score of the returned solution
    let check = score(&problem, 0, Spec::V1, &best_solution).unwrap();
    assert_eq!(check, best);
}

#[test]
fn run_sa_rejects_invalid_input() {
    let problem = example_problem();
    let mut bad = example_solution();
    bad.volumes = vec![1, 1];
    let mut rng = rng_from_seed();
    let r = run_sa(&mut rng, &problem, Spec::V1, &bad, Some(100), End::MaxIteration(10));
    assert!(r.is_err());
}

#[test]
fn random_point_lands_on_stage() {
    let problem = example_problem();
    let mut rng = rng_from_seed();
    for _ in 0..100 {
        let p = problem.random_point_on_stage(&mut rng);
        assert!(p.x >= 510 && p.x <= 1490 && p.y >= 10 && p.y <= 190);
    }
}

#[test]
fn metropolis_keeps_improvements() {
    let mut rng = rng_from_seed();
    assert!(icfp2023::solver_sa::metropolis_accepts(&mut rng, 0, 100));
    assert!(icfp2023::solver_sa::metropolis_accepts(&mut rng, 5, 0));
    assert!(!icfp2023::solver_sa::metropolis_accepts(&mut rng, -5, 0));
    // far below any temperature: never kept
    assert!(!icfp2023::solver_sa::metropolis_accepts(&mut rng, -1_000_000, 1));
}

#[test]
fn run_sa_progress_rows() {
    let problem = example_problem();
    let solution = example_solution();
    let mut rng = rng_from_seed();
    let (best, _sol, rows, _hist) = run_sa(
        &mut rng,
        &problem,
        Spec::V1,
        &solution,
        Some(100),
        End::MaxIteration(25_000),
    )
    .unwrap();
    // one row per 10_000 iterations
    assert_eq!(rows.len(), 2);
    assert_eq!(rows[0].iteration, 10_000);
    assert_eq!(rows[1].iteration, 20_000);
    for row in &rows {
        assert!(row.score <= best);
        assert!(row.best <= best);
        assert!(row.accepted_positive + row.accepted_negative <= row.proposals);
    }
}

#[test]
fn solver_name_describes_run() {
    let name = icfp2023::solver_sa::solver_name(Some(100), End::MaxIteration(10_000));
    assert_eq!(name, "sa-temp0-100-iter-10000");
    let name2 = icfp2023::solver_sa::solver_name(None, End::MaxDuration(60_000));
    assert_eq!(name2, "sa-temp0-0-duration-60");
}
