//! The data model: problems, attendees, pillars, positions and solutions,
//! with their well-formedness conditions.
//!
//! Coordinates, radii and taste weights are integers. Magnitudes are capped
//! so that every intermediate product of the scoring geometry fits in
//! an `i128` machine word; the caps are generous compared to the inputs the
//! search is meant for.

use vstd::prelude::*;

verus! {

/// Largest magnitude allowed for a coordinate or a pillar radius.
pub const COORD_LIMIT: i64 = 1_000_000_000;

/// Largest magnitude allowed for a taste weight.
pub const TASTE_LIMIT: i64 = 1_000_000_000;

/// Largest number of attendees a well-formed problem may carry.
pub const MAX_ATTENDEES: usize = 1_000_000;

/// Largest number of players a well-formed problem may carry.
pub const MAX_PLAYERS: usize = 1_000_000;

/// Inset from each stage edge within which players must stand.
pub const STAGE_MARGIN: i64 = 10;

/// Radius of a player's body for line-of-sight blocking.
pub const PLAYER_RADIUS: i64 = 5;

/// Spacing of the placement grids the solvers lay players on.
pub const GRID_STEP: i64 = 10;

/// Factor applied to a taste weight in the scoring formula.
pub const SCORE_SCALE: i64 = 1_000_000;

/// A 2D point: the location assigned to one player.
#[derive(Clone, Copy, PartialEq, Eq, Structural, Debug)]
pub struct Position {
    pub x: i64,
    pub y: i64,
}

/// A weighted observer: a location and one taste weight per instrument
/// category. Taste weights may be negative.
#[derive(Clone, PartialEq, Eq, Debug)]
pub struct Attendee {
    pub x: i64,
    pub y: i64,
    pub tastes: Vec<i64>,
}

/// A solid circular occluder.
#[derive(Clone, Copy, PartialEq, Eq, Structural, Debug)]
pub struct Pillar {
    pub center: Position,
    pub radius: i64,
}

/// The immutable input: room and stage geometry, the players' categories,
/// the attendees and the pillars.
#[derive(Clone, PartialEq, Eq, Debug)]
pub struct Problem {
    pub room_width: i64,
    pub room_height: i64,
    pub stage_width: i64,
    pub stage_height: i64,
    pub stage_bottom_left: Position,
    pub musicians: Vec<i64>,
    pub attendees: Vec<Attendee>,
    pub pillars: Vec<Pillar>,
}

/// An ordered sequence of positions, one per entry in `musicians`.
#[derive(Clone, PartialEq, Eq, Debug)]
pub struct Solution {
    pub placements: Vec<Position>,
}

pub open spec fn valid_coord(c: int) -> bool {
    -(COORD_LIMIT as int) <= c <= COORD_LIMIT as int
}

pub open spec fn valid_position(p: Position) -> bool {
    valid_coord(p.x as int) && valid_coord(p.y as int)
}

pub open spec fn valid_attendee(a: Attendee) -> bool {
    &&& valid_coord(a.x as int)
    &&& valid_coord(a.y as int)
    &&& forall|t: int|
        0 <= t < a.tastes@.len() ==> -(TASTE_LIMIT as int) <= #[trigger] a.tastes@[t]
            <= TASTE_LIMIT as int
}

pub open spec fn valid_pillar(pl: Pillar) -> bool {
    valid_position(pl.center) && 0 <= pl.radius <= COORD_LIMIT as int
}

/// A problem the scorer and the solvers accept: the stage lies inside the
/// room, and every magnitude and count is within its cap.
pub open spec fn wf_problem(p: Problem) -> bool {
    &&& 0 <= p.room_width <= COORD_LIMIT as int
    &&& 0 <= p.room_height <= COORD_LIMIT as int
    &&& 0 <= p.stage_width
    &&& 0 <= p.stage_height
    &&& 0 <= p.stage_bottom_left.x
    &&& 0 <= p.stage_bottom_left.y
    &&& p.stage_bottom_left.x + p.stage_width <= p.room_width
    &&& p.stage_bottom_left.y + p.stage_height <= p.room_height
    &&& p.musicians@.len() <= MAX_PLAYERS as int
    &&& p.attendees@.len() <= MAX_ATTENDEES as int
    &&& forall|i: int| 0 <= i < p.attendees@.len() ==> valid_attendee(#[trigger] p.attendees@[i])
    &&& forall|i: int| 0 <= i < p.pillars@.len() ==> valid_pillar(#[trigger] p.pillars@[i])
}

/// A solution the scorer accepts: every placement within the coordinate cap.
pub open spec fn wf_solution(s: Solution) -> bool {
    &&& s.placements@.len() <= MAX_PLAYERS as int
    &&& forall|i: int|
        0 <= i < s.placements@.len() ==> valid_position(#[trigger] s.placements@[i])
}

/// A player is on stage when it lies in the stage rectangle inset by
/// `STAGE_MARGIN` on all four sides (the inset boundary itself is allowed).
pub open spec fn on_stage(p: Problem, pos: Position) -> bool {
    &&& p.stage_bottom_left.x + STAGE_MARGIN <= pos.x
    &&& pos.x <= p.stage_bottom_left.x + p.stage_width - STAGE_MARGIN
    &&& p.stage_bottom_left.y + STAGE_MARGIN <= pos.y
    &&& pos.y <= p.stage_bottom_left.y + p.stage_height - STAGE_MARGIN
}

pub open spec fn all_on_stage(p: Problem, placements: Seq<Position>) -> bool {
    forall|i: int| 0 <= i < placements.len() ==> on_stage(p, #[trigger] placements[i])
}

/// Whether one player position respects the stage margin.
pub fn is_on_stage(p: &Problem, pos: Position) -> (r: bool)
    requires
        wf_problem(*p),
        valid_position(pos),
    ensures
        r == on_stage(*p, pos),
{
    let sbl = p.stage_bottom_left;
    sbl.x + STAGE_MARGIN <= pos.x && pos.x <= sbl.x + p.stage_width - STAGE_MARGIN
        && sbl.y + STAGE_MARGIN <= pos.y && pos.y <= sbl.y + p.stage_height - STAGE_MARGIN
}

} // verus!
