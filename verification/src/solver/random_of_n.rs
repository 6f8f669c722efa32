//! Randomized placement with best-of-N restarts.
//!
//! The stage inset is partitioned into `GRID_STEP`-sized cells; each player
//! draws a uniformly random cell, redrawing while the cell is taken, with a
//! capped draw budget so a crowded stage is an error rather than an endless
//! loop. The restart search repeats the generator a fixed number of times,
//! scores each candidate, and keeps the best score seen — ties keep the
//! earlier candidate.

use vstd::prelude::*;

verus! {

broadcast use vstd::std_specs::hash::group_hash_axioms;

use std::collections::HashSet;
use vstd::arithmetic::div_mod::{
    lemma_div_is_ordered,
    lemma_div_pos_is_pos,
    lemma_fundamental_div_mod,
    lemma_fundamental_div_mod_converse,
};
use crate::icfp::{
    all_on_stage,
    on_stage,
    valid_position,
    wf_problem,
    wf_solution,
    Position,
    Problem,
    Solution,
    GRID_STEP,
    STAGE_MARGIN,
};
use crate::rng::rng_below;
use crate::scorer::{scorer, spec_score};
use crate::solver::SolveError;

/// Random draws allowed per player before the generator reports failure.
pub const PLACEMENT_DRAW_LIMIT: u64 = 100_000;

/// Number of randomized candidates the restart search generates.
pub const RESTART_ATTEMPTS: u64 = 1000;

/// Cell codes are `col * CELL_CODE_BASE + row`; 2^32 keeps the two halves
/// disjoint for every column and row count the coordinate cap allows.
pub const CELL_CODE_BASE: u64 = 4_294_967_296;

/// Number of cell columns: the width inside the margins divided by
/// `GRID_STEP`, rounded up.
pub open spec fn rand_cols(p: Problem) -> int {
    if p.stage_width <= 2 * STAGE_MARGIN {
        0
    } else {
        (p.stage_width - 2 * STAGE_MARGIN + GRID_STEP - 1) / (GRID_STEP as int)
    }
}

/// Number of cell rows, as `rand_cols`.
pub open spec fn rand_rows(p: Problem) -> int {
    if p.stage_height <= 2 * STAGE_MARGIN {
        0
    } else {
        (p.stage_height - 2 * STAGE_MARGIN + GRID_STEP - 1) / (GRID_STEP as int)
    }
}

/// Number of cells available to the randomized generator.
pub open spec fn rand_capacity(p: Problem) -> int {
    rand_cols(p) * rand_rows(p)
}

/// The player coordinate assigned to a cell: its corner plus a fixed
/// `STAGE_MARGIN` offset.
pub open spec fn cell_position(p: Problem, col: int, row: int) -> Position {
    Position {
        x: (p.stage_bottom_left.x + (GRID_STEP as int) * col + STAGE_MARGIN) as i64,
        y: (p.stage_bottom_left.y + (GRID_STEP as int) * row + STAGE_MARGIN) as i64,
    }
}

/// The column of a cell code.
pub open spec fn code_col(c: u64) -> int {
    c as int / (CELL_CODE_BASE as int)
}

/// The row of a cell code.
pub open spec fn code_row(c: u64) -> int {
    c as int % (CELL_CODE_BASE as int)
}

/// No two placements coincide.
pub open spec fn pairwise_distinct(placements: Seq<Position>) -> bool {
    forall|a: int, b: int| 0 <= a < b < placements.len() ==> placements[a] != placements[b]
}

/// The position sits on one of the generator's cells.
pub open spec fn is_cell_position(p: Problem, pos: Position) -> bool {
    exists|c: int, r: int|
        0 <= c < rand_cols(p) && 0 <= r < rand_rows(p) && pos == cell_position(p, c, r)
}

/// Every placement sits on one of the generator's cells.
pub open spec fn cell_form(p: Problem, placements: Seq<Position>) -> bool {
    forall|i: int| 0 <= i < placements.len() ==> is_cell_position(p, #[trigger] placements[i])
}

/// Every cell position lies on the stage and within the coordinate cap.
proof fn lemma_cell_position_on_stage(p: Problem, col: int, row: int)
    requires
        wf_problem(p),
        0 <= col < rand_cols(p),
        0 <= row < rand_rows(p),
    ensures
        on_stage(p, cell_position(p, col, row)),
        valid_position(cell_position(p, col, row)),
        cell_position(p, col, row).x == p.stage_bottom_left.x + (GRID_STEP as int) * col
            + STAGE_MARGIN,
        cell_position(p, col, row).y == p.stage_bottom_left.y + (GRID_STEP as int) * row
            + STAGE_MARGIN,
{
    let step = GRID_STEP as int;
    let aw = p.stage_width - 2 * STAGE_MARGIN;
    let ah = p.stage_height - 2 * STAGE_MARGIN;
    lemma_fundamental_div_mod(aw + step - 1, step);
    lemma_fundamental_div_mod(ah + step - 1, step);
    assert(step * col <= step * (rand_cols(p) - 1)) by (nonlinear_arith)
        requires
            col <= rand_cols(p) - 1,
            step >= 0,
    ;
    assert(step * row <= step * (rand_rows(p) - 1)) by (nonlinear_arith)
        requires
            row <= rand_rows(p) - 1,
            step >= 0,
    ;
    assert(step * col >= 0) by (nonlinear_arith)
        requires
            col >= 0,
            step >= 0,
    ;
    assert(step * row >= 0) by (nonlinear_arith)
        requires
            row >= 0,
            step >= 0,
    ;
    assert(step * (rand_cols(p) - 1) == step * rand_cols(p) - step) by (nonlinear_arith);
    assert(step * (rand_rows(p) - 1) == step * rand_rows(p) - step) by (nonlinear_arith);
}

/// Distinct cells give distinct positions: the coordinate recovers the cell.
proof fn lemma_cell_position_injective(p: Problem, c1: int, r1: int, c2: int, r2: int)
    requires
        wf_problem(p),
        0 <= c1 < rand_cols(p),
        0 <= r1 < rand_rows(p),
        0 <= c2 < rand_cols(p),
        0 <= r2 < rand_rows(p),
        cell_position(p, c1, r1) == cell_position(p, c2, r2),
    ensures
        c1 == c2,
        r1 == r2,
{
    lemma_cell_position_on_stage(p, c1, r1);
    lemma_cell_position_on_stage(p, c2, r2);
}

/// Running best score over a prefix of candidate scores, replacing only on
/// a strict improvement (so ties keep the earliest candidate).
pub open spec fn best_seen(scores: Seq<int>, n: int) -> int
    recommends
        1 <= n <= scores.len(),
    decreases n,
{
    if n <= 1 {
        scores[0]
    } else {
        let prev = best_seen(scores, n - 1);
        if scores[n - 1] > prev {
            scores[n - 1]
        } else {
            prev
        }
    }
}

/// The running best only reads the prefix it covers.
pub proof fn lemma_best_seen_prefix(s1: Seq<int>, s2: Seq<int>, n: int)
    requires
        1 <= n <= s1.len(),
        n <= s2.len(),
        forall|i: int| 0 <= i < n ==> s1[i] == s2[i],
    ensures
        best_seen(s1, n) == best_seen(s2, n),
    decreases n,
{
    if n > 1 {
        lemma_best_seen_prefix(s1, s2, n - 1);
    }
}

/// Random-restart monotonicity: as more attempts are considered, the
/// retained best score never decreases.
pub proof fn lemma_best_seen_monotone(scores: Seq<int>, m: int, n: int)
    requires
        1 <= m <= n <= scores.len(),
    ensures
        best_seen(scores, m) <= best_seen(scores, n),
    decreases n,
{
    if m < n {
        lemma_best_seen_monotone(scores, m, n - 1);
    }
}

/// One randomized placement: every player in a distinct random cell.
/// Succeeds only with one position per musician, each on a distinct cell of
/// the inset grid; a stage with fewer cells than players is an explicit
/// error, and an exhausted draw budget is reported rather than retried
/// forever — which takes at least two players, since the first draw can
/// never collide.
pub fn solve_once(problem: &Problem, rng: &mut rand::rngs::StdRng) -> (r: Result<
    Solution,
    SolveError,
>)
    requires
        wf_problem(*problem),
    ensures
        match r {
            Ok(s) => {
                &&& problem.musicians@.len() <= rand_capacity(*problem)
                &&& s.placements@.len() == problem.musicians@.len()
                &&& wf_solution(s)
                &&& all_on_stage(*problem, s.placements@)
                &&& pairwise_distinct(s.placements@)
                &&& cell_form(*problem, s.placements@)
            },
            Err(e) => match e {
                SolveError::InsufficientStage { players, cells } => {
                    &&& problem.musicians@.len() > rand_capacity(*problem)
                    &&& players == problem.musicians@.len()
                    &&& cells == rand_capacity(*problem) as u64
                },
                SolveError::RetriesExhausted => {
                    &&& problem.musicians@.len() <= rand_capacity(*problem)
                    &&& problem.musicians@.len() >= 2
                },
            },
        },
{
    let needed = problem.musicians.len();
    let two_margin: i64 = 2 * STAGE_MARGIN;
    let step: u64 = GRID_STEP as u64;
    let cols: u64 = if problem.stage_width <= two_margin {
        0
    } else {
        (((problem.stage_width - two_margin) as u64) + (step - 1)) / step
    };
    let rows: u64 = if problem.stage_height <= two_margin {
        0
    } else {
        (((problem.stage_height - two_margin) as u64) + (step - 1)) / step
    };
    proof {
        assert(cols == rand_cols(*problem));
        assert(rows == rand_rows(*problem));
        if problem.stage_width > two_margin {
            lemma_div_is_ordered(
                problem.stage_width - two_margin + GRID_STEP - 1,
                1_000_000_009,
                GRID_STEP as int,
            );
            lemma_div_pos_is_pos(problem.stage_width - two_margin + GRID_STEP - 1, GRID_STEP as int);
        }
        if problem.stage_height > two_margin {
            lemma_div_is_ordered(
                problem.stage_height - two_margin + GRID_STEP - 1,
                1_000_000_009,
                GRID_STEP as int,
            );
            lemma_div_pos_is_pos(
                problem.stage_height - two_margin + GRID_STEP - 1,
                GRID_STEP as int,
            );
        }
        assert(cols <= 100_000_001 && rows <= 100_000_001);
        crate::geometry::lemma_mul_bounds(cols as int, rows as int, 100_000_001, 100_000_001);
        assert(cols as int * rows as int >= 0) by (nonlinear_arith)
            requires
                cols as int >= 0,
                rows as int >= 0,
        ;
    }
    let capacity: u64 = cols * rows;
    if needed as u64 > capacity {
        return Err(SolveError::InsufficientStage { players: needed, cells: capacity });
    }
    let mut used: HashSet<u64> = HashSet::new();
    let mut placements: Vec<Position> = Vec::new();
    let ghost mut codes: Seq<u64> = Seq::empty();
    let mut idx: usize = 0;
    while idx < needed
        invariant
            wf_problem(*problem),
            needed == problem.musicians@.len(),
            cols == rand_cols(*problem),
            rows == rand_rows(*problem),
            cols <= 100_000_001,
            rows <= 100_000_001,
            capacity == cols * rows,
            needed <= capacity,
            idx <= needed,
            placements@.len() == idx,
            codes.len() == idx,
            idx == 0 ==> used@ == Set::<u64>::empty(),
            forall|a: int| 0 <= a < idx ==> used@.contains(#[trigger] codes[a]),
            forall|a: int, b: int| 0 <= a < b < idx ==> codes[a] != codes[b],
            forall|a: int| #![trigger codes[a]]
                0 <= a < idx ==> {
                    &&& 0 <= code_col(codes[a]) < cols
                    &&& 0 <= code_row(codes[a]) < rows
                    &&& placements@[a] == cell_position(
                        *problem,
                        code_col(codes[a]),
                        code_row(codes[a]),
                    )
                },
            forall|a: int|
                0 <= a < idx ==> valid_position(#[trigger] placements@[a]) && on_stage(
                    *problem,
                    placements@[a],
                ),
        decreases needed - idx,
    {
        proof {
            if cols == 0 || rows == 0 {
                assert(cols as int * rows as int == 0) by (nonlinear_arith)
                    requires
                        cols == 0 || rows == 0,
                ;
            }
        }
        let mut found = false;
        let mut fcol: u64 = 0;
        let mut frow: u64 = 0;
        let mut code: u64 = 0;
        let mut tries: u64 = 0;
        while !found && tries < PLACEMENT_DRAW_LIMIT
            invariant
                1 <= cols <= 100_000_001,
                1 <= rows <= 100_000_001,
                tries <= PLACEMENT_DRAW_LIMIT,
                idx == 0 ==> used@ == Set::<u64>::empty(),
                idx == 0 && tries > 0 ==> found,
                found ==> {
                    &&& fcol < cols
                    &&& frow < rows
                    &&& code == fcol * CELL_CODE_BASE + frow
                    &&& !used@.contains(code)
                },
            decreases PLACEMENT_DRAW_LIMIT - tries,
        {
            let c = rng_below(rng, cols);
            let r = rng_below(rng, rows);
            let cd: u64 = c * CELL_CODE_BASE + r;
            if !used.contains(&cd) {
                found = true;
                fcol = c;
                frow = r;
                code = cd;
            }
            tries = tries + 1;
        }
        if !found {
            proof {
                // the first player's draw can never collide with an empty
                // cell set, so an exhausted budget means at least two players
                assert(idx >= 1);
            }
            return Err(SolveError::RetriesExhausted);
        }
        used.insert(code);
        proof {
            lemma_cell_position_on_stage(*problem, fcol as int, frow as int);
        }
        let x: i64 = problem.stage_bottom_left.x + GRID_STEP * (fcol as i64) + STAGE_MARGIN;
        let y: i64 = problem.stage_bottom_left.y + GRID_STEP * (frow as i64) + STAGE_MARGIN;
        let ghost prior_pl: Seq<Position> = placements@;
        let ghost prior_codes: Seq<u64> = codes;
        placements.push(Position { x, y });
        proof {
            codes = codes.push(code);
            lemma_fundamental_div_mod_converse(
                code as int,
                CELL_CODE_BASE as int,
                fcol as int,
                frow as int,
            );
            assert(code_col(code) == fcol as int && code_row(code) == frow as int);
            assert(placements@[idx as int] == cell_position(*problem, fcol as int, frow as int));
            assert forall|a: int| #![trigger codes[a]] 0 <= a < idx + 1 implies {
                &&& 0 <= code_col(codes[a]) < cols
                &&& 0 <= code_row(codes[a]) < rows
                &&& placements@[a] == cell_position(
                    *problem,
                    code_col(codes[a]),
                    code_row(codes[a]),
                )
            } by {
                if a < idx as int {
                    assert(codes[a] == prior_codes[a]);
                    assert(placements@[a] == prior_pl[a]);
                } else {
                    assert(codes[a] == code);
                }
            }
        }
        idx = idx + 1;
    }
    proof {
        assert forall|a: int, b: int|
            0 <= a < b < placements@.len() implies placements@[a] != placements@[b] by {
            if placements@[a] == placements@[b] {
                lemma_cell_position_injective(
                    *problem,
                    code_col(codes[a]),
                    code_row(codes[a]),
                    code_col(codes[b]),
                    code_row(codes[b]),
                );
                lemma_fundamental_div_mod(codes[a] as int, CELL_CODE_BASE as int);
                lemma_fundamental_div_mod(codes[b] as int, CELL_CODE_BASE as int);
            }
        }
        assert forall|a: int|
            0 <= a < placements@.len() implies is_cell_position(
            *problem,
            #[trigger] placements@[a],
        ) by {
            assert(placements@[a] == cell_position(
                *problem,
                code_col(codes[a]),
                code_row(codes[a]),
            ));
        }
    }
    Ok(Solution { placements })
}

/// Best-of-N restart search: generate `RESTART_ATTEMPTS` randomized
/// placements, score each, and return the one whose score was retained by
/// the running best (strict improvement only, so ties keep the first).
pub fn solve(problem: &Problem, rng: &mut rand::rngs::StdRng) -> (r: Result<Solution, SolveError>)
    requires
        wf_problem(*problem),
    ensures
        match r {
            Ok(s) => {
                &&& s.placements@.len() == problem.musicians@.len()
                &&& wf_solution(s)
                &&& all_on_stage(*problem, s.placements@)
                &&& pairwise_distinct(s.placements@)
                &&& cell_form(*problem, s.placements@)
            },
            Err(e) => match e {
                SolveError::InsufficientStage { players, cells } => problem.musicians@.len()
                    > rand_capacity(*problem),
                SolveError::RetriesExhausted => {
                    &&& problem.musicians@.len() <= rand_capacity(*problem)
                    &&& problem.musicians@.len() >= 2
                },
            },
        },
{
    let first = match solve_once(problem, rng) {
        Ok(s) => s,
        Err(e) => {
            return Err(e);
        },
    };
    let mut best_score = scorer(problem, &first);
    let mut best = first;
    let ghost mut seen: Seq<int> = seq![best_score as int];
    let mut attempt: u64 = 1;
    while attempt < RESTART_ATTEMPTS
        invariant
            wf_problem(*problem),
            best.placements@.len() == problem.musicians@.len(),
            wf_solution(best),
            all_on_stage(*problem, best.placements@),
            pairwise_distinct(best.placements@),
            cell_form(*problem, best.placements@),
            best_score == spec_score(*problem, best),
            1 <= attempt <= RESTART_ATTEMPTS,
            seen.len() == attempt,
            best_score == best_seen(seen, attempt as int),
        decreases RESTART_ATTEMPTS - attempt,
    {
        let cand = match solve_once(problem, rng) {
            Ok(s) => s,
            Err(e) => {
                return Err(e);
            },
        };
        let cand_score = scorer(problem, &cand);
        proof {
            let prior = seen;
            seen = seen.push(cand_score as int);
            lemma_best_seen_prefix(prior, seen, attempt as int);
            assert(seen[attempt as int] == cand_score as int);
        }
        if cand_score > best_score {
            best_score = cand_score;
            best = cand;
        }
        attempt = attempt + 1;
    }
    Ok(best)
}

} // verus!
