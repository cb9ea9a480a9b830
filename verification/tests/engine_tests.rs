use icfp2023::Point;
use icfp2023::engine::{Engine, EngineError};
use icfp2023::problem::{Attendee, Pillar, Problem, Spec};
use icfp2023::solution::Solution;

fn fixture() -> (Problem, Solution) {
    let problem = Problem {
        room_width: 2000,
        room_height: 5000,
        stage_width: 1000,
        stage_height: 200,
        stage_bottom_left: Point::new(500, 0),
        musicians: vec![0, 1, 0],
        attendees: vec![
            Attendee { x: 100, y: 500, tastes: vec![1000, -1000] },
            Attendee { x: 200, y: 1000, tastes: vec![200, 200] },
            Attendee { x: 1100, y: 800, tastes: vec![800, 1500] },
        ],
        pillars: vec![Pillar { center: Point::new(345, 255), radius: 4 }],
    };
    let solution = Solution {
        placements: vec![Point::new(590, 10), Point::new(1100, 100), Point::new(1100, 150)],
        volumes: vec![1, 1, 1],
    };
    (problem, solution)
}

// Incremental and from-scratch totals agree exactly after a chain of
// moves and swaps.
#[test]
fn incremental_matches_from_scratch() {
    let (problem, solution) = fixture();
    let mut st = Engine::new(&problem, Spec::V2, &solution).unwrap();
    st.update_score(&problem, false);
    st.do_move(&problem, 0, Point::new(700, 100));
    st.do_swap(&problem, 1, 2);
    st.do_move(&problem, 2, Point::new(900, 50));
    let snapshot = st.to_solution(&problem);
    let mut fresh = Engine::new(&problem, Spec::V2, &snapshot).unwrap();
    fresh.update_score(&problem, false);
    assert_eq!(st.score, fresh.score);
    assert_eq!(st.scores, fresh.scores);
    assert_eq!(st.q, fresh.q);
    assert_eq!(st.nblock, fresh.nblock);
}

// Moving a musician away and back restores the total and every
// occlusion counter exactly.
#[test]
fn move_inverse_restores_state() {
    let (problem, solution) = fixture();
    let mut st = Engine::new(&problem, Spec::V2, &solution).unwrap();
    st.update_score(&problem, false);
    let before_score = st.score;
    let before_counters = st.nblock.clone();
    let p0 = Point::new(590, 10);
    st.do_move(&problem, 0, Point::new(800, 120));
    st.do_move(&problem, 0, p0);
    assert_eq!(st.score, before_score);
    assert_eq!(st.nblock, before_counters);
}

// A swap applied twice is the identity.
#[test]
fn swap_inverse_restores_state() {
    let (problem, solution) = fixture();
    let mut st = Engine::new(&problem, Spec::V2, &solution).unwrap();
    st.update_score(&problem, false);
    let before_score = st.score;
    let before_counters = st.nblock.clone();
    st.do_swap(&problem, 0, 2);
    st.do_swap(&problem, 0, 2);
    assert_eq!(st.score, before_score);
    assert_eq!(st.nblock, before_counters);
}

// Occlusion counters stay non-negative and match across rebuilds; the
// musician pair at x == 1100 occludes the attendee above them.
#[test]
fn occlusion_counter_example() {
    let (problem, solution) = fixture();
    let st = Engine::new(&problem, Spec::V1, &solution).unwrap();
    // musician 1 at (1100, 100) looking at attendee 2 at (1100, 800) is
    // blocked by musician 2 at (1100, 150)
    assert_eq!(st.nblock[1][2], 1);
    // musician 2 at (1100, 150) sees that attendee unobstructed
    assert_eq!(st.nblock[2][2], 0);
}

#[test]
fn construction_error_cases() {
    let (problem, solution) = fixture();

    let mut bad = problem.clone();
    bad.room_width = -1;
    assert_eq!(Engine::new(&bad, Spec::V1, &solution).unwrap_err(), EngineError::InvalidProblem);

    let mut short = solution.clone();
    short.placements.pop();
    assert_eq!(Engine::new(&problem, Spec::V1, &short).unwrap_err(), EngineError::LengthMismatch);

    let mut loud = solution.clone();
    loud.volumes[0] = 11;
    assert_eq!(Engine::new(&problem, Spec::V1, &loud).unwrap_err(), EngineError::VolumeOutOfRange);

    let mut off = solution.clone();
    off.placements[0] = Point::new(0, 0);
    assert_eq!(Engine::new(&problem, Spec::V1, &off).unwrap_err(), EngineError::OffStage);

    let mut close = solution.clone();
    close.placements[0] = Point::new(1100, 108);
    assert_eq!(Engine::new(&problem, Spec::V1, &close).unwrap_err(), EngineError::Overlap);

    assert!(Engine::new(&problem, Spec::V1, &solution).is_ok());
}

#[test]
fn collision_predicate() {
    let (problem, solution) = fixture();
    let st = Engine::new(&problem, Spec::V1, &solution).unwrap();
    // off the shrunk stage
    assert!(icfp2023::solver_sa::collides(&st, &problem, 0, Point::new(0, 0)));
    assert!(icfp2023::solver_sa::collides(&st, &problem, 0, Point::new(505, 100)));
    // within 2r of musician 1 at (1100, 100)
    assert!(icfp2023::solver_sa::collides(&st, &problem, 0, Point::new(1105, 100)));
    // exactly at distance 10 still collides (closed ball)
    assert!(icfp2023::solver_sa::collides(&st, &problem, 0, Point::new(1110, 100)));
    // one further: free
    assert!(!icfp2023::solver_sa::collides(&st, &problem, 0, Point::new(1111, 100)));
    // a musician's own slot is not compared against itself
    assert!(!icfp2023::solver_sa::collides(&st, &problem, 1, Point::new(1100, 100)));
}

// Derived volumes mute exactly the non-positive contributors.
#[test]
fn derived_volumes() {
    let (problem, solution) = fixture();
    let st = Engine::new(&problem, Spec::V1, &solution).unwrap();
    let sol = st.to_solution(&problem);
    for (i, v) in sol.volumes.iter().enumerate() {
        if st.scores[i] <= 0 {
            assert_eq!(*v, 0);
        } else {
            assert_eq!(*v, 10);
        }
    }
}
