use icfp2023::problem::{Attendee, Pillar, Problem};
use icfp2023::stats::{BestScore, Problems, Userboard};
use icfp2023::Point;
use icfp2023::problem::Spec;

#[test]
fn userboard_queries() {
    let board = Userboard {
        success: Problems { problems: vec![Some(10), None, Some(32)] },
    };
    assert_eq!(board.best_score(1), Some(10));
    assert_eq!(board.best_score(2), None);
    assert_eq!(board.best_score(3), Some(32));
    assert_eq!(board.total_score(), 42);
}

#[test]
fn ledger_update_rule() {
    let mut ledger = BestScore::empty();
    assert_eq!(ledger.score(7), None);
    ledger.update(7, 100);
    ledger.update(9, 250);
    assert_eq!(ledger.score(7), Some(100));
    assert_eq!(ledger.score(9), Some(250));
    ledger.update(7, 300);
    assert_eq!(ledger.score(7), Some(300));
    assert_eq!(ledger.score(9), Some(250));
    assert_eq!(ledger.score(8), None);
}

#[test]
fn attendee_taste_stats() {
    let a = Attendee { x: 0, y: 0, tastes: vec![4, -2, 7] };
    assert_eq!(a.taste_avg(), 3);
    assert_eq!(a.taste_max(), 7);
}

#[test]
fn tentative_score_small() {
    // one musician, one attendee one unit left of the stage: the squared
    // distance to the boundary is 1, so the estimate is taste * 1e6 * 10
    let p = Problem {
        room_width: 1000,
        room_height: 1000,
        stage_width: 100,
        stage_height: 100,
        stage_bottom_left: Point::new(400, 400),
        musicians: vec![0],
        attendees: vec![Attendee { x: 399, y: 450, tastes: vec![50] }],
        pillars: Vec::<Pillar>::new(),
    };
    assert_eq!(p.tentative_score(), 50 * 1_000_000 * 10);
}

#[test]
fn tentative_score_mutes_negative() {
    let p = Problem {
        room_width: 1000,
        room_height: 1000,
        stage_width: 100,
        stage_height: 100,
        stage_bottom_left: Point::new(400, 400),
        musicians: vec![0],
        attendees: vec![Attendee { x: 399, y: 450, tastes: vec![-50] }],
        pillars: Vec::<Pillar>::new(),
    };
    assert_eq!(p.tentative_score(), 0);
}

#[test]
fn instrument_counts() {
    let counts = icfp2023::problem::inst_cnt(&[2, 0, 2, 2, 5]);
    assert_eq!(counts.get(&2), Some(&3));
    assert_eq!(counts.get(&0), Some(&1));
    assert_eq!(counts.get(&5), Some(&1));
    assert_eq!(counts.get(&1), None);
}

#[test]
fn spec_from_problem_id() {
    assert_eq!(Spec::from(1), Spec::V1);
    assert_eq!(Spec::from(55), Spec::V1);
    assert_eq!(Spec::from(56), Spec::V2);
    assert_eq!(Spec::from(90), Spec::V2);
}

#[test]
fn problem_taste_averages() {
    let p = Problem {
        room_width: 1000,
        room_height: 1000,
        stage_width: 100,
        stage_height: 100,
        stage_bottom_left: Point::new(400, 400),
        musicians: vec![0],
        attendees: vec![
            Attendee { x: 10, y: 10, tastes: vec![10, 20] },
            Attendee { x: 20, y: 20, tastes: vec![30, 50] },
        ],
        pillars: Vec::<Pillar>::new(),
    };
    // per-attendee means 15 and 40; their mean is 27
    assert_eq!(p.taste_avg(), 27);
    // per-attendee maxima 20 and 50; their mean is 35
    assert_eq!(p.taste_max_avg(), 35);
}

#[test]
fn stage_distance() {
    let p = Problem {
        room_width: 1000,
        room_height: 1000,
        stage_width: 100,
        stage_height: 100,
        stage_bottom_left: Point::new(400, 400),
        musicians: vec![0],
        attendees: vec![Attendee { x: 10, y: 10, tastes: vec![1] }],
        pillars: Vec::<Pillar>::new(),
    };
    // three units left of the left edge, inside its y-span
    let d = p.distance_to_stage_squared(Point::new(397, 450));
    assert_eq!(d.num, 9 * d.den);
    // at a corner: the squared diagonal distance
    let d2 = p.distance_to_stage_squared(Point::new(397, 396));
    assert_eq!((d2.num, d2.den), (9 + 16, 1));
}

#[test]
fn ledger_total() {
    let mut ledger = BestScore::empty();
    ledger.update(1, 10);
    ledger.update(2, 15);
    ledger.update(1, 20);
    assert_eq!(ledger.total_score(), 35);
}
