use paisleys_paradox::icfp::{Attendee, Position, Problem, Solution};
use paisleys_paradox::scorer::scorer;
use paisleys_paradox::solver::ga;
use paisleys_paradox::solver::ga::Individual;
use paisleys_paradox::solver::random_of_n;
use paisleys_paradox::solver::trivial;
use paisleys_paradox::solver::SolveError;
use rand::SeedableRng;

fn small_problem(musician_count: usize, stage_width: i64, stage_height: i64) -> Problem {
    Problem {
        room_width: 1000,
        room_height: 1000,
        stage_width,
        stage_height,
        stage_bottom_left: Position { x: 100, y: 100 },
        musicians: vec![0; musician_count],
        attendees: vec![
            Attendee {
                x: 50,
                y: 50,
                tastes: vec![10],
            },
            Attendee {
                x: 500,
                y: 120,
                tastes: vec![-3],
            },
        ],
        pillars: vec![],
    }
}

fn on_stage(problem: &Problem, pos: &Position) -> bool {
    let sbl = &problem.stage_bottom_left;
    sbl.x + 10 <= pos.x
        && pos.x <= sbl.x + problem.stage_width - 10
        && sbl.y + 10 <= pos.y
        && pos.y <= sbl.y + problem.stage_height - 10
}

/// Grid baseline determinism: two invocations produce identical solutions.
#[test]
fn grid_baseline_deterministic() {
    let problem = small_problem(6, 40, 30);
    let first = trivial::solve(&problem).unwrap();
    let second = trivial::solve(&problem).unwrap();
    assert_eq!(first, second);
}

/// The grid baseline lays players row-major from the bottom row, left to
/// right, with 10-unit spacing from the 10-unit inset.
#[test]
fn grid_baseline_layout() {
    let problem = small_problem(5, 40, 30);
    let solution = trivial::solve(&problem).unwrap();
    assert_eq!(
        solution.placements,
        vec![
            Position { x: 110, y: 110 },
            Position { x: 120, y: 110 },
            Position { x: 130, y: 110 },
            Position { x: 110, y: 120 },
            Position { x: 120, y: 120 },
        ]
    );
}

/// A stage too small for the player count is an explicit error, not a
/// silently short placement list.
#[test]
fn grid_baseline_insufficient_stage() {
    let problem = small_problem(2, 20, 20);
    match trivial::solve(&problem) {
        Err(SolveError::InsufficientStage { players, cells }) => {
            assert_eq!(players, 2);
            assert_eq!(cells, 1);
        }
        other => panic!("expected InsufficientStage, got {:?}", other),
    }
}

/// Whether a position has the cell form `corner + 10·cell + 10` in both
/// axes, with the cell index inside the rounded-up grid.
fn on_grid_cell(problem: &Problem, pos: &Position) -> bool {
    let cols = (problem.stage_width - 20 + 9) / 10;
    let rows = (problem.stage_height - 20 + 9) / 10;
    let dx = pos.x - problem.stage_bottom_left.x - 10;
    let dy = pos.y - problem.stage_bottom_left.y - 10;
    dx >= 0 && dy >= 0 && dx % 10 == 0 && dy % 10 == 0 && dx / 10 < cols && dy / 10 < rows
}

/// The randomized generator fills every slot with a distinct on-stage
/// position of the cell form.
#[test]
fn randomized_generator_distinct_cells() {
    let problem = small_problem(12, 60, 60);
    let mut rng = rand::rngs::StdRng::seed_from_u64(7);
    let solution = random_of_n::solve_once(&problem, &mut rng).unwrap();
    assert_eq!(solution.placements.len(), 12);
    let mut seen: Vec<(i64, i64)> = Vec::new();
    for pos in &solution.placements {
        assert!(on_stage(&problem, pos));
        assert!(on_grid_cell(&problem, pos));
        assert!(!seen.contains(&(pos.x, pos.y)));
        seen.push((pos.x, pos.y));
    }
}

/// A single player always places: the first draw can never collide, so the
/// draw budget cannot run out.
#[test]
fn randomized_generator_single_player_always_places() {
    let problem = small_problem(1, 40, 40);
    for seed in 0..20u64 {
        let mut rng = rand::rngs::StdRng::seed_from_u64(seed);
        let solution = random_of_n::solve_once(&problem, &mut rng).unwrap();
        assert_eq!(solution.placements.len(), 1);
        assert!(on_stage(&problem, &solution.placements[0]));
    }
}

/// More players than cells is an explicit error with the exact counts.
#[test]
fn randomized_generator_insufficient_stage() {
    let problem = small_problem(1, 20, 20);
    let mut rng = rand::rngs::StdRng::seed_from_u64(7);
    match random_of_n::solve_once(&problem, &mut rng) {
        Err(SolveError::InsufficientStage { players, cells }) => {
            assert_eq!(players, 1);
            assert_eq!(cells, 0);
        }
        other => panic!("expected InsufficientStage, got {:?}", other),
    }
}

/// Random-restart monotonicity, observed end to end: the retained solution
/// scores at least as well as the first attempt generated from the same
/// seed.
#[test]
fn random_restart_keeps_at_least_first_attempt() {
    let problem = small_problem(3, 60, 60);
    let mut solve_rng = rand::rngs::StdRng::seed_from_u64(11);
    let best = random_of_n::solve(&problem, &mut solve_rng).unwrap();
    let mut first_rng = rand::rngs::StdRng::seed_from_u64(11);
    let first = random_of_n::solve_once(&problem, &mut first_rng).unwrap();
    assert!(scorer(&problem, &best) >= scorer(&problem, &first));
    assert_eq!(best.placements.len(), 3);
}

/// Evolutionary non-regression: one generation never lowers the top score.
#[test]
fn evolutionary_generation_non_regression() {
    let problem = small_problem(3, 60, 60);
    let mut rng = rand::rngs::StdRng::seed_from_u64(23);
    let mut population: Vec<Individual> = Vec::new();
    for _ in 0..100 {
        let solution = random_of_n::solve_once(&problem, &mut rng).unwrap();
        let score = scorer(&problem, &solution);
        population.push(Individual { solution, score });
    }
    population.sort_by(|left, right| right.score.cmp(&left.score));
    for _ in 0..5 {
        let top_before = population[0].score;
        ga::evolve_generation(&problem, &mut population, &mut rng).unwrap();
        assert_eq!(population.len(), 100);
        assert!(population[0].score >= top_before);
        for window in population.windows(2) {
            assert!(window[0].score >= window[1].score);
        }
    }
}

/// The evolutionary solver returns one on-stage position per musician,
/// every position on a distinct grid cell.
#[test]
fn evolutionary_solver_full_solution() {
    let problem = small_problem(4, 60, 60);
    let mut rng = rand::rngs::StdRng::seed_from_u64(31);
    let solution = ga::solve(&problem, &mut rng).unwrap();
    assert_eq!(solution.placements.len(), 4);
    let mut seen: Vec<(i64, i64)> = Vec::new();
    for pos in &solution.placements {
        assert!(on_stage(&problem, pos));
        assert!(on_grid_cell(&problem, pos));
        assert!(!seen.contains(&(pos.x, pos.y)));
        seen.push((pos.x, pos.y));
    }
}

/// The evolutionary solver's result scores at least as well as a single
/// random placement from the same seed: its initial population contains
/// that placement and the top score never regresses.
#[test]
fn evolutionary_solver_beats_first_random() {
    let problem = small_problem(3, 60, 60);
    let mut solve_rng = rand::rngs::StdRng::seed_from_u64(41);
    let best = ga::solve(&problem, &mut solve_rng).unwrap();
    let mut first_rng = rand::rngs::StdRng::seed_from_u64(41);
    let first = random_of_n::solve_once(&problem, &mut first_rng).unwrap();
    let best_score = scorer(&problem, &best);
    assert!(best_score >= scorer(&problem, &first));
}

/// The whole-solution scorer accepts solver output directly: a grid
/// solution of a problem with one attendee and known geometry has an exact
/// score.
#[test]
fn grid_solution_scored_exactly() {
    let problem = Problem {
        room_width: 1000,
        room_height: 1000,
        stage_width: 20,
        stage_height: 20,
        stage_bottom_left: Position { x: 90, y: 90 },
        musicians: vec![0],
        attendees: vec![Attendee {
            x: 100,
            y: 0,
            tastes: vec![1],
        }],
        pillars: vec![],
    };
    let solution = trivial::solve(&problem).unwrap();
    assert_eq!(solution.placements, vec![Position { x: 100, y: 100 }]);
    assert_eq!(scorer(&problem, &solution), 100);
}

/// An empty problem solves to an empty solution with score zero.
#[test]
fn empty_problem() {
    let problem = small_problem(0, 40, 40);
    let solution = trivial::solve(&problem).unwrap();
    assert_eq!(solution, Solution { placements: vec![] });
    assert_eq!(scorer(&problem, &solution), 0);
}
