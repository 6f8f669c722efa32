use paisleys_paradox::icfp::{Attendee, Pillar, Position, Problem, Solution};
use paisleys_paradox::scorer::{player_scorer, scorer};

/// One attendee at (100, 0) with the given tastes, players on a stage whose
/// margin-inset region is exactly the given placements' bounding area.
fn problem_with(
    tastes: Vec<i64>,
    musicians: Vec<i64>,
    stage_bottom_left: Position,
    stage_width: i64,
    stage_height: i64,
    pillars: Vec<Pillar>,
) -> Problem {
    Problem {
        room_width: 1000,
        room_height: 1000,
        stage_width,
        stage_height,
        stage_bottom_left,
        musicians,
        attendees: vec![Attendee { x: 100, y: 0, tastes }],
        pillars,
    }
}

/// Unobstructed scoring formula: taste 1.0 for the player's category at
/// distance 100 contributes ceil(1_000_000 / 100²) = 100.
#[test]
fn unobstructed_formula() {
    let problem = problem_with(
        vec![1],
        vec![0],
        Position { x: 90, y: 90 },
        20,
        20,
        vec![],
    );
    let solution = Solution {
        placements: vec![Position { x: 100, y: 100 }],
    };
    assert_eq!(scorer(&problem, &solution), 100);
    assert_eq!(
        player_scorer(&problem, &solution, &Position { x: 100, y: 100 }, 0),
        100
    );
}

/// The ceiling rounds toward positive infinity on both signs: distance 30
/// gives 1_000_000 / 900 = 1111.11…, so +1112 for taste 1 and -1111 for
/// taste -1.
#[test]
fn ceiling_asymmetry() {
    let positive = problem_with(
        vec![1],
        vec![0],
        Position { x: 90, y: 20 },
        20,
        20,
        vec![],
    );
    let solution = Solution {
        placements: vec![Position { x: 100, y: 30 }],
    };
    assert_eq!(scorer(&positive, &solution), 1112);

    let negative = problem_with(
        vec![-1],
        vec![0],
        Position { x: 90, y: 20 },
        20,
        20,
        vec![],
    );
    assert_eq!(scorer(&negative, &solution), -1111);
}

/// Blocking correctness: a pillar centered on the midpoint of the sight
/// segment blocks the pair for any positive radius.
#[test]
fn pillar_on_midpoint_blocks() {
    for radius in [1, 5, 40] {
        let problem = problem_with(
            vec![1],
            vec![0],
            Position { x: 90, y: 90 },
            20,
            20,
            vec![Pillar {
                center: Position { x: 100, y: 50 },
                radius,
            }],
        );
        let solution = Solution {
            placements: vec![Position { x: 100, y: 100 }],
        };
        assert_eq!(scorer(&problem, &solution), 0);
    }
}

/// A pillar far away from the sight segment does not block it.
#[test]
fn distant_pillar_does_not_block() {
    let problem = problem_with(
        vec![1],
        vec![0],
        Position { x: 90, y: 90 },
        20,
        20,
        vec![Pillar {
            center: Position { x: 500, y: 500 },
            radius: 30,
        }],
    );
    let solution = Solution {
        placements: vec![Position { x: 100, y: 100 }],
    };
    assert_eq!(scorer(&problem, &solution), 100);
}

/// Boundary zeroing: one player standing exactly at stage_bottom_left
/// collapses the whole solution's score to 0, even though the other player
/// would have contributed.
#[test]
fn boundary_zeroing() {
    let problem = problem_with(
        vec![1],
        vec![0, 0],
        Position { x: 90, y: 90 },
        20,
        20,
        vec![],
    );
    let solution = Solution {
        placements: vec![Position { x: 100, y: 100 }, Position { x: 90, y: 90 }],
    };
    assert_eq!(scorer(&problem, &solution), 0);
}

/// The per-player scorer zeroes only the off-stage player's own total.
#[test]
fn player_scorer_zeroes_only_itself() {
    let problem = problem_with(
        vec![1],
        vec![0, 0],
        Position { x: 90, y: 90 },
        20,
        20,
        vec![],
    );
    let solution = Solution {
        placements: vec![Position { x: 100, y: 100 }, Position { x: 90, y: 90 }],
    };
    assert_eq!(
        player_scorer(&problem, &solution, &Position { x: 90, y: 90 }, 1),
        0
    );
    assert_eq!(
        player_scorer(&problem, &solution, &Position { x: 100, y: 100 }, 0),
        100
    );
}

/// Occlusion by a second player: a player body exactly on the segment
/// between the attendee and the target blocks that pair; the blocker's own
/// pair stays visible.
#[test]
fn occlusion_by_second_player() {
    let problem = problem_with(
        vec![1],
        vec![0, 0],
        Position { x: 90, y: 40 },
        20,
        70,
        vec![],
    );
    let solution = Solution {
        placements: vec![Position { x: 100, y: 100 }, Position { x: 100, y: 50 }],
    };
    // pair (attendee, player 0) is blocked; pair (attendee, player 1) is
    // ceil(1_000_000 / 50²) = 400
    assert_eq!(scorer(&problem, &solution), 400);
    assert_eq!(
        player_scorer(&problem, &solution, &Position { x: 100, y: 100 }, 0),
        0
    );
}

/// Scoring is idempotent: the same problem and solution give bit-identical
/// scores on repeated calls.
#[test]
fn scoring_idempotent() {
    let problem = problem_with(
        vec![1],
        vec![0, 0],
        Position { x: 90, y: 40 },
        20,
        70,
        vec![],
    );
    let solution = Solution {
        placements: vec![Position { x: 100, y: 100 }, Position { x: 100, y: 50 }],
    };
    let first = scorer(&problem, &solution);
    let second = scorer(&problem, &solution);
    assert_eq!(first, second);
}

/// An attendee exactly coincident with a player contributes zero for that
/// pair instead of dividing by zero.
#[test]
fn coincident_attendee_scores_zero() {
    let problem = Problem {
        room_width: 1000,
        room_height: 1000,
        stage_width: 20,
        stage_height: 20,
        stage_bottom_left: Position { x: 90, y: 90 },
        musicians: vec![0],
        attendees: vec![Attendee {
            x: 100,
            y: 100,
            tastes: vec![1],
        }],
        pillars: vec![],
    };
    let solution = Solution {
        placements: vec![Position { x: 100, y: 100 }],
    };
    assert_eq!(scorer(&problem, &solution), 0);
}

/// A category index outside an attendee's taste vector counts as zero
/// preference, for too-large and for negative indices alike.
#[test]
fn missing_taste_is_zero_preference() {
    let out_of_range = problem_with(
        vec![1],
        vec![3],
        Position { x: 90, y: 90 },
        20,
        20,
        vec![],
    );
    let solution = Solution {
        placements: vec![Position { x: 100, y: 100 }],
    };
    assert_eq!(scorer(&out_of_range, &solution), 0);

    let negative = problem_with(
        vec![1],
        vec![-1],
        Position { x: 90, y: 90 },
        20,
        20,
        vec![],
    );
    assert_eq!(scorer(&negative, &solution), 0);
}
