//! The drawing scene: a verified description of the picture of a problem
//! and an optional solution, as plain shapes. Rendering the shapes to an
//! image format and writing the file are left to the caller.

use vstd::prelude::*;
use crate::problem::Problem;
use crate::solution::Solution;

verus! {

/// One element of the picture, bottom to top.
#[derive(Clone, Copy, Debug, PartialEq, Eq, Structural)]
pub enum Shape {
    /// The white background, filling the whole room.
    Canvas { width: i64, height: i64 },
    /// The stage rectangle.
    Stage { x: i64, y: i64, width: i64, height: i64 },
    /// An attendee, drawn as a small fixed-radius dot.
    AttendeeDot { cx: i64, cy: i64 },
    /// A pillar, drawn at its own radius.
    PillarDisk { cx: i64, cy: i64, r: i64 },
    /// A musician, coloured by instrument; muted musicians are drawn
    /// translucent.
    MusicianDot { cx: i64, cy: i64, red: u8, green: u8, blue: u8, muted: bool },
}

/// Spread an instrument index over a small colour palette.
pub fn convert_to_rgb(n: u8) -> (r: (u8, u8, u8))
    ensures
        r.0 == (n % 8) * 32,
        r.1 == ((n / 8) % 8) * 32,
        r.2 == ((n / 64) % 4) * 64,
{
    let red: u8 = (n % 8) * 32;
    let green: u8 = ((n / 8) % 8) * 32;
    let blue: u8 = ((n / 64) % 4) * 64;
    (red, green, blue)
}

/// The colour byte of an instrument.
pub open spec fn color_byte(inst: int) -> int {
    ((inst % 256) * 19) % 256
}

/// The musician dot for instrument `inst` at a position, with volume.
pub open spec fn musician_shape(cx: int, cy: int, inst: int, volume: int) -> Shape {
    let n = color_byte(inst);
    (Shape::MusicianDot {
        cx: cx as i64,
        cy: cy as i64,
        red: ((n % 8) * 32) as u8,
        green: (((n / 8) % 8) * 32) as u8,
        blue: (((n / 64) % 4) * 64) as u8,
        muted: volume == 0,
    })
}

/// Build the scene: canvas, stage, attendees, pillars, and — when a
/// solution is given — one coloured dot per musician.
#[verifier::loop_isolation(false)]
pub fn draw_svg(problem: &Problem, solution: Option<&Solution>) -> (r: Vec<Shape>)
    requires
        solution is Some ==> (solution->0).placements@.len() == problem.nm() && (
        solution->0).volumes@.len() == problem.nm(),
    ensures
        r@.len() == 2 + problem.natt() + problem.npil() + (if solution is Some {
            problem.nm()
        } else {
            0
        }),
        r@[0] == (Shape::Canvas { width: problem.room_width, height: problem.room_height }),
        r@[1] == (Shape::Stage {
            x: problem.stage_bottom_left.x,
            y: problem.stage_bottom_left.y,
            width: problem.stage_width,
            height: problem.stage_height,
        }),
        forall|j: int|
            0 <= j < problem.natt() ==> r@[2 + j] == (Shape::AttendeeDot {
                cx: problem.attendees@[j].x,
                cy: problem.attendees@[j].y,
            }),
        forall|j: int|
            0 <= j < problem.npil() ==> r@[2 + problem.natt() + j] == (Shape::PillarDisk {
                cx: problem.pillars@[j].center.x,
                cy: problem.pillars@[j].center.y,
                r: problem.pillars@[j].radius,
            }),
        solution is Some ==> forall|i: int|
            0 <= i < problem.nm() ==> r@[2 + problem.natt() + problem.npil() + i]
                == musician_shape(
                (solution->0).placements@[i].x as int,
                (solution->0).placements@[i].y as int,
                problem.musicians@[i] as int,
                (solution->0).volumes@[i] as int,
            ),
{
    let mut out: Vec<Shape> = Vec::new();
    out.push(Shape::Canvas { width: problem.room_width, height: problem.room_height });
    out.push(
        Shape::Stage {
            x: problem.stage_bottom_left.x,
            y: problem.stage_bottom_left.y,
            width: problem.stage_width,
            height: problem.stage_height,
        },
    );
    let natt: usize = problem.attendees.len();
    let mut j: usize = 0;
    while j < natt
        invariant
            0 <= j <= natt,
            out@.len() == 2 + j as int,
            out@[0] == (Shape::Canvas { width: problem.room_width, height: problem.room_height }),
            out@[1] == (Shape::Stage {
                x: problem.stage_bottom_left.x,
                y: problem.stage_bottom_left.y,
                width: problem.stage_width,
                height: problem.stage_height,
            }),
            forall|x: int|
                0 <= x < j ==> out@[2 + x] == (Shape::AttendeeDot {
                    cx: problem.attendees@[x].x,
                    cy: problem.attendees@[x].y,
                }),
        decreases natt - j,
    {
        out.push(Shape::AttendeeDot { cx: problem.attendees[j].x, cy: problem.attendees[j].y });
        j = j + 1;
    }
    let npil: usize = problem.pillars.len();
    let mut j2: usize = 0;
    while j2 < npil
        invariant
            0 <= j2 <= npil,
            out@.len() == 2 + natt as int + j2 as int,
            out@[0] == (Shape::Canvas { width: problem.room_width, height: problem.room_height }),
            out@[1] == (Shape::Stage {
                x: problem.stage_bottom_left.x,
                y: problem.stage_bottom_left.y,
                width: problem.stage_width,
                height: problem.stage_height,
            }),
            forall|x: int|
                0 <= x < natt ==> out@[2 + x] == (Shape::AttendeeDot {
                    cx: problem.attendees@[x].x,
                    cy: problem.attendees@[x].y,
                }),
            forall|x: int|
                0 <= x < j2 ==> out@[2 + natt + x] == (Shape::PillarDisk {
                    cx: problem.pillars@[x].center.x,
                    cy: problem.pillars@[x].center.y,
                    r: problem.pillars@[x].radius,
                }),
        decreases npil - j2,
    {
        out.push(
            Shape::PillarDisk {
                cx: problem.pillars[j2].center.x,
                cy: problem.pillars[j2].center.y,
                r: problem.pillars[j2].radius,
            },
        );
        j2 = j2 + 1;
    }
    match solution {
        Some(sol) => {
            let nm: usize = problem.musicians.len();
            let mut i: usize = 0;
            while i < nm
                invariant
                    0 <= i <= nm,
                    out@.len() == 2 + natt as int + npil as int + i as int,
                    out@[0] == (Shape::Canvas { width: problem.room_width, height: problem.room_height }),
                    out@[1] == (Shape::Stage {
                        x: problem.stage_bottom_left.x,
                        y: problem.stage_bottom_left.y,
                        width: problem.stage_width,
                        height: problem.stage_height,
                    }),
                    forall|x: int|
                        0 <= x < natt ==> out@[2 + x] == (Shape::AttendeeDot {
                            cx: problem.attendees@[x].x,
                            cy: problem.attendees@[x].y,
                        }),
                    forall|x: int|
                        0 <= x < npil ==> out@[2 + natt + x] == (Shape::PillarDisk {
                            cx: problem.pillars@[x].center.x,
                            cy: problem.pillars@[x].center.y,
                            r: problem.pillars@[x].radius,
                        }),
                    forall|x: int|
                        0 <= x < i ==> out@[2 + natt + npil + x] == musician_shape(
                            sol.placements@[x].x as int,
                            sol.placements@[x].y as int,
                            problem.musicians@[x] as int,
                            sol.volumes@[x] as int,
                        ),
                decreases nm - i,
            {
                let inst: usize = problem.musicians[i];
                let n: u8 = ((inst % 256) * 19 % 256) as u8;
                let (red, green, blue) = convert_to_rgb(n);
                out.push(
                    Shape::MusicianDot {
                        cx: sol.placements[i].x,
                        cy: sol.placements[i].y,
                        red,
                        green,
                        blue,
                        muted: sol.volumes[i] == 0,
                    },
                );
                i = i + 1;
            }
        },
        None => {
        },
    }
    out
}

/// The scene of a bare problem, without a placement.
pub fn draw_problem(problem: &Problem) -> (r: Vec<Shape>)
    ensures
        r@.len() == 2 + problem.natt() + problem.npil(),
        r@[0] == (Shape::Canvas { width: problem.room_width, height: problem.room_height }),
        forall|j: int|
            0 <= j < problem.natt() ==> r@[2 + j] == (Shape::AttendeeDot {
                cx: problem.attendees@[j].x,
                cy: problem.attendees@[j].y,
            }),
        forall|j: int|
            0 <= j < problem.npil() ==> r@[2 + problem.natt() + j] == (Shape::PillarDisk {
                cx: problem.pillars@[j].center.x,
                cy: problem.pillars@[j].center.y,
                r: problem.pillars@[j].radius,
            }),
{
    draw_svg(problem, None)
}

/// The scene of a problem with a placed solution.
pub fn draw_solution(problem: &Problem, solution: &Solution) -> (r: Vec<Shape>)
    requires
        solution.placements@.len() == problem.nm(),
        solution.volumes@.len() == problem.nm(),
    ensures
        r@.len() == 2 + problem.natt() + problem.npil() + problem.nm(),
        forall|i: int|
            0 <= i < problem.nm() ==> r@[2 + problem.natt() + problem.npil() + i]
                == musician_shape(
                solution.placements@[i].x as int,
                solution.placements@[i].y as int,
                problem.musicians@[i] as int,
                solution.volumes@[i] as int,
            ),
{
    draw_svg(problem, Some(solution))
}

} // verus!
