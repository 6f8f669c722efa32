//! Deterministic grid-fill baseline: players on a regular grid inset
//! `STAGE_MARGIN` from each stage edge, row-major from the bottom row,
//! left to right, with `GRID_STEP` spacing in both axes.

use vstd::prelude::*;

verus! {

use vstd::arithmetic::div_mod::{
    lemma_div_is_ordered,
    lemma_div_pos_is_pos,
    lemma_fundamental_div_mod,
    lemma_fundamental_div_mod_converse_div,
};
use crate::icfp::{
    all_on_stage,
    on_stage,
    valid_position,
    wf_problem,
    wf_solution,
    Position,
    Problem,
    Solution,
    GRID_STEP,
    STAGE_MARGIN,
};
use crate::geometry::lemma_mul_bounds;
use crate::solver::SolveError;

/// Number of grid columns that fit between the left and right margins:
/// positions `x = left + STAGE_MARGIN + GRID_STEP * c` with
/// `x <= left + stage_width - STAGE_MARGIN`.
pub open spec fn grid_cols(p: Problem) -> int {
    if p.stage_width < 2 * STAGE_MARGIN {
        0
    } else {
        (p.stage_width - 2 * STAGE_MARGIN) / (GRID_STEP as int) + 1
    }
}

/// Number of grid rows that fit between the bottom and top margins.
pub open spec fn grid_rows(p: Problem) -> int {
    if p.stage_height < 2 * STAGE_MARGIN {
        0
    } else {
        (p.stage_height - 2 * STAGE_MARGIN) / (GRID_STEP as int) + 1
    }
}

/// The position of the `idx`-th grid player, row-major from the bottom row.
pub open spec fn grid_position(p: Problem, idx: int) -> Position
    recommends
        grid_cols(p) >= 1,
{
    Position {
        x: (p.stage_bottom_left.x + STAGE_MARGIN + (GRID_STEP as int) * (idx % grid_cols(p))) as i64,
        y: (p.stage_bottom_left.y + STAGE_MARGIN + (GRID_STEP as int) * (idx / grid_cols(p))) as i64,
    }
}

/// Every grid slot below the capacity lies on the stage and within the
/// coordinate cap.
proof fn lemma_grid_position_on_stage(p: Problem, idx: int)
    requires
        wf_problem(p),
        grid_cols(p) >= 1,
        grid_rows(p) >= 1,
        0 <= idx < grid_cols(p) * grid_rows(p),
    ensures
        on_stage(p, grid_position(p, idx)),
        valid_position(grid_position(p, idx)),
{
    let cols = grid_cols(p);
    let rows = grid_rows(p);
    let col = idx % cols;
    let row = idx / cols;
    lemma_fundamental_div_mod(idx, cols);
    assert(0 <= col < cols) by {
        vstd::arithmetic::div_mod::lemma_mod_bound(idx, cols);
    }
    assert(row <= rows - 1) by {
        assert(cols * rows - 1 == (rows - 1) * cols + (cols - 1)) by (nonlinear_arith);
        lemma_fundamental_div_mod_converse_div(cols * rows - 1, cols, rows - 1, cols - 1);
        lemma_div_is_ordered(idx, cols * rows - 1, cols);
    }
    assert(row >= 0) by {
        lemma_div_pos_is_pos(idx, cols);
    }
    // GRID_STEP * cols <= stage_width - STAGE_MARGIN, and likewise for rows
    lemma_fundamental_div_mod(p.stage_width - 2 * STAGE_MARGIN, GRID_STEP as int);
    lemma_fundamental_div_mod(p.stage_height - 2 * STAGE_MARGIN, GRID_STEP as int);
    assert((GRID_STEP as int) * col <= (GRID_STEP as int) * (cols - 1)) by (nonlinear_arith)
        requires
            col <= cols - 1,
    ;
    assert((GRID_STEP as int) * row <= (GRID_STEP as int) * (rows - 1)) by (nonlinear_arith)
        requires
            row <= rows - 1,
    ;
    assert((GRID_STEP as int) * col >= 0) by (nonlinear_arith)
        requires
            col >= 0,
    ;
    assert((GRID_STEP as int) * row >= 0) by (nonlinear_arith)
        requires
            row >= 0,
    ;
}

/// Positive capacity means both axes hold at least one slot.
proof fn lemma_capacity_positive(p: Problem, needed: int)
    requires
        1 <= needed <= grid_cols(p) * grid_rows(p),
        grid_cols(p) >= 0,
        grid_rows(p) >= 0,
    ensures
        grid_cols(p) >= 1,
        grid_rows(p) >= 1,
{
    if grid_cols(p) == 0 || grid_rows(p) == 0 {
        assert(grid_cols(p) * grid_rows(p) <= 0) by (nonlinear_arith)
            requires
                grid_cols(p) >= 0,
                grid_rows(p) >= 0,
                grid_cols(p) == 0 || grid_rows(p) == 0,
        ;
    }
}

/// Grid baseline determinism: any two solutions that satisfy the grid
/// contract for the same problem hold the same placements, so repeated
/// invocations of `solve` cannot differ.
pub proof fn lemma_grid_determinism(p: Problem, s1: Solution, s2: Solution)
    requires
        s1.placements@.len() == p.musicians@.len(),
        s2.placements@.len() == p.musicians@.len(),
        forall|i: int| 0 <= i < s1.placements@.len() ==> s1.placements@[i] == grid_position(p, i),
        forall|i: int| 0 <= i < s2.placements@.len() ==> s2.placements@[i] == grid_position(p, i),
    ensures
        s1.placements@ == s2.placements@,
{
    assert forall|i: int|
        0 <= i < s1.placements@.len() implies #[trigger] s1.placements@[i]
        == s2.placements@[i] by {
        assert(s1.placements@[i] == grid_position(p, i));
        assert(s2.placements@[i] == grid_position(p, i));
    }
    assert(s1.placements@ =~= s2.placements@);
}

/// Deterministic grid-fill baseline. Succeeds exactly when the grid holds
/// every player, and then places the `idx`-th player at `grid_position`;
/// a stage too small for the player count is an explicit error, never a
/// silently short placement list.
pub fn solve(problem: &Problem) -> (r: Result<Solution, SolveError>)
    requires
        wf_problem(*problem),
    ensures
        match r {
            Ok(s) => {
                &&& problem.musicians@.len() <= grid_cols(*problem) * grid_rows(*problem)
                &&& s.placements@.len() == problem.musicians@.len()
                &&& forall|i: int|
                    0 <= i < s.placements@.len() ==> s.placements@[i] == grid_position(*problem, i)
                &&& wf_solution(s)
                &&& all_on_stage(*problem, s.placements@)
            },
            Err(e) => {
                &&& problem.musicians@.len() > grid_cols(*problem) * grid_rows(*problem)
                &&& e == (SolveError::InsufficientStage {
                    players: problem.musicians@.len() as usize,
                    cells: (grid_cols(*problem) * grid_rows(*problem)) as u64,
                })
            },
        },
{
    let needed = problem.musicians.len();
    let two_margin: i64 = 2 * STAGE_MARGIN;
    let cols: u64 = if problem.stage_width < two_margin {
        0
    } else {
        ((problem.stage_width - two_margin) as u64) / (GRID_STEP as u64) + 1
    };
    let rows: u64 = if problem.stage_height < two_margin {
        0
    } else {
        ((problem.stage_height - two_margin) as u64) / (GRID_STEP as u64) + 1
    };
    proof {
        assert(cols == grid_cols(*problem));
        assert(rows == grid_rows(*problem));
        if problem.stage_width >= two_margin {
            lemma_div_is_ordered(
                problem.stage_width - two_margin,
                1_000_000_000,
                GRID_STEP as int,
            );
            lemma_div_pos_is_pos(problem.stage_width - two_margin, GRID_STEP as int);
        }
        if problem.stage_height >= two_margin {
            lemma_div_is_ordered(
                problem.stage_height - two_margin,
                1_000_000_000,
                GRID_STEP as int,
            );
            lemma_div_pos_is_pos(problem.stage_height - two_margin, GRID_STEP as int);
        }
        assert(cols <= 100_000_001 && rows <= 100_000_001);
        lemma_mul_bounds(cols as int, rows as int, 100_000_001, 100_000_001);
        assert(cols as int * rows as int >= 0) by (nonlinear_arith)
            requires
                cols as int >= 0,
                rows as int >= 0,
        ;
    }
    let capacity: u64 = cols * rows;
    if needed as u64 > capacity {
        return Err(SolveError::InsufficientStage { players: needed, cells: capacity });
    }
    let mut placements: Vec<Position> = Vec::new();
    let mut idx: usize = 0;
    while idx < needed
        invariant
            wf_problem(*problem),
            needed == problem.musicians@.len(),
            cols == grid_cols(*problem),
            rows == grid_rows(*problem),
            capacity == cols * rows,
            needed <= capacity,
            idx <= needed,
            placements@.len() == idx,
            forall|i: int| 0 <= i < idx ==> placements@[i] == grid_position(*problem, i),
            forall|i: int| 0 <= i < idx ==> valid_position(#[trigger] placements@[i]),
            forall|i: int| 0 <= i < idx ==> on_stage(*problem, #[trigger] placements@[i]),
        decreases needed - idx,
    {
        proof {
            lemma_capacity_positive(*problem, needed as int);
        }
        let col: u64 = (idx as u64) % cols;
        let row: u64 = (idx as u64) / cols;
        proof {
            lemma_grid_position_on_stage(*problem, idx as int);
            vstd::arithmetic::div_mod::lemma_mod_bound(idx as int, cols as int);
            lemma_div_pos_is_pos(idx as int, cols as int);
            assert(cols as int * rows as int - 1 == (rows as int - 1) * (cols as int) + (cols as int
                - 1)) by (nonlinear_arith);
            lemma_fundamental_div_mod_converse_div(
                cols as int * rows as int - 1,
                cols as int,
                rows as int - 1,
                cols as int - 1,
            );
            lemma_div_is_ordered(idx as int, cols as int * rows as int - 1, cols as int);
            assert((GRID_STEP as int) * (col as int) <= (GRID_STEP as int) * (cols as int - 1))
                by (nonlinear_arith)
                requires
                    col as int <= cols as int - 1,
            ;
            assert((GRID_STEP as int) * (row as int) <= (GRID_STEP as int) * (rows as int - 1))
                by (nonlinear_arith)
                requires
                    row as int <= rows as int - 1,
            ;
            lemma_fundamental_div_mod(problem.stage_width - 2 * STAGE_MARGIN, GRID_STEP as int);
            lemma_fundamental_div_mod(problem.stage_height - 2 * STAGE_MARGIN, GRID_STEP as int);
        }
        let x: i64 = problem.stage_bottom_left.x + STAGE_MARGIN + GRID_STEP * (col as i64);
        let y: i64 = problem.stage_bottom_left.y + STAGE_MARGIN + GRID_STEP * (row as i64);
        placements.push(Position { x, y });
        idx = idx + 1;
    }
    Ok(Solution { placements })
}

} // verus!
