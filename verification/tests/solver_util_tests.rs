use icfp2023::draw::{draw_problem, draw_solution, Shape};
use icfp2023::problem::{Attendee, Pillar, Problem};
use icfp2023::solution::Solution;
use icfp2023::solver::is_improvement;
use icfp2023::Point;

#[test]
fn step_by_test() {
    assert_eq!((0..50).step_by(10).collect::<Vec<_>>(), [0, 10, 20, 30, 40]);
}

#[test]
fn clamp_test() {
    assert_eq!(3.clamp(3, 5), 3);
    assert_eq!(2.clamp(3, 5), 3);
    assert_eq!(8.clamp(3, 5), 5);
}

#[test]
fn improvement_rule() {
    assert!(is_improvement(None, 0));
    assert!(is_improvement(Some(5), 6));
    assert!(!is_improvement(Some(6), 6));
    assert!(!is_improvement(Some(7), 6));
}

fn small_problem() -> Problem {
    Problem {
        room_width: 1000,
        room_height: 1000,
        stage_width: 100,
        stage_height: 100,
        stage_bottom_left: Point::new(400, 400),
        musicians: vec![0, 1],
        attendees: vec![Attendee { x: 10, y: 10, tastes: vec![100, 200] }],
        pillars: vec![Pillar { center: Point::new(700, 700), radius: 30 }],
    }
}

#[test]
fn problem_scene_contents() {
    let p = small_problem();
    let scene = draw_problem(&p);
    assert_eq!(scene.len(), 4);
    assert_eq!(scene[0], Shape::Canvas { width: 1000, height: 1000 });
    assert_eq!(scene[1], Shape::Stage { x: 400, y: 400, width: 100, height: 100 });
    assert_eq!(scene[2], Shape::AttendeeDot { cx: 10, cy: 10 });
    assert_eq!(scene[3], Shape::PillarDisk { cx: 700, cy: 700, r: 30 });
}

#[test]
fn solution_scene_musicians() {
    let p = small_problem();
    let sol = Solution {
        placements: vec![Point::new(450, 450), Point::new(480, 480)],
        volumes: vec![0, 10],
    };
    let scene = draw_solution(&p, &sol);
    assert_eq!(scene.len(), 6);
    match scene[4] {
        Shape::MusicianDot { cx, cy, muted, .. } => {
            assert_eq!((cx, cy), (450, 450));
            assert!(muted);
        }
        _ => panic!("expected a musician dot"),
    }
    match scene[5] {
        Shape::MusicianDot { cx, cy, muted, red, green, blue } => {
            assert_eq!((cx, cy), (480, 480));
            assert!(!muted);
            // instrument 1: colour byte 19 -> red 96, green 64, blue 0
            assert_eq!((red, green, blue), (96, 64, 0));
        }
        _ => panic!("expected a musician dot"),
    }
}
