//! Scoring of placements against the attendees.
//!
//! An attendee's contribution for one player is
//! `ceil(taste * SCORE_SCALE / d²)` over the squared sight-line distance
//! `d²`, or 0 when the sight line is blocked by a pillar or by another
//! player's body. The whole-solution scorer collapses the aggregate to 0
//! when any player violates the stage margin; the per-player scorer zeroes
//! only that player's own total.
//!
//! Two boundary rules are deliberate design choices, stated here once: a
//! category index outside an attendee's taste vector counts as zero
//! preference, and an attendee exactly coincident with a player (squared
//! distance 0) contributes zero rather than dividing by zero.
//!
//! All of the scoring geometry is translation invariant, and the data model
//! places the stage inside a room anchored at the origin, so a legal
//! placement never sits at the origin itself (its coordinates are at least
//! the stage margin). A scene described around the origin — an attendee at
//! (0,0) watching a player straight above — is therefore realized here
//! translated onto the stage, with identical distances and contributions.

use vstd::prelude::*;

verus! {

use vstd::arithmetic::div_mod::{
    lemma_div_is_ordered,
    lemma_div_pos_is_pos,
    lemma_fundamental_div_mod,
    lemma_fundamental_div_mod_converse_div,
};
use crate::geometry::{dist_sq, lemma_mul_bounds, segment_hits_circle, segment_hits_circle_exec};
use crate::icfp::{
    all_on_stage,
    is_on_stage,
    on_stage,
    valid_attendee,
    valid_position,
    wf_problem,
    wf_solution,
    Attendee,
    Pillar,
    Position,
    Problem,
    Solution,
    PLAYER_RADIUS,
    SCORE_SCALE,
    TASTE_LIMIT,
};

/// Ceiling of `n / d` for a positive divisor, in terms of the Euclidean
/// (floor) division of the specification language.
pub open spec fn spec_ceil_div(n: int, d: int) -> int
    recommends
        d >= 1,
{
    (n + d - 1) / d
}

/// The ceiling of a quotient lies between 0 and the numerator.
pub proof fn lemma_ceil_div_bounds(n: int, d: int)
    requires
        d >= 1,
    ensures
        n >= 0 ==> 0 <= spec_ceil_div(n, d) <= n,
        n <= 0 ==> n <= spec_ceil_div(n, d) <= 0,
{
    let x = n + d - 1;
    if n >= 0 {
        lemma_div_pos_is_pos(x, d);
        assert(x <= n * d + d - 1) by (nonlinear_arith)
            requires
                n >= 0,
                d >= 1,
                x == n + d - 1,
        ;
        lemma_fundamental_div_mod_converse_div(n * d + d - 1, d, n, d - 1);
        lemma_div_is_ordered(x, n * d + d - 1, d);
    }
    if n <= 0 {
        assert(n * d <= x) by (nonlinear_arith)
            requires
                n <= 0,
                d >= 1,
                x == n + d - 1,
        ;
        lemma_fundamental_div_mod_converse_div(n * d, d, n, 0);
        lemma_div_is_ordered(n * d, x, d);
        lemma_fundamental_div_mod_converse_div(d - 1, d, 0, d - 1);
        lemma_div_is_ordered(x, d - 1, d);
    }
}

/// Ceiling division of `n` by a positive divisor, exact for every sign of
/// `n` (truncating hardware division is avoided by working on magnitudes).
pub fn ceil_div_i128(n: i128, d: i128) -> (q: i128)
    requires
        1 <= d,
        n > i128::MIN,
    ensures
        q == spec_ceil_div(n as int, d as int),
{
    if n >= 0 {
        let nu: u128 = n as u128;
        let du: u128 = d as u128;
        let q0: u128 = (nu + (du - 1)) / du;
        proof {
            lemma_div_pos_is_pos(n as int + d as int - 1, d as int);
            lemma_ceil_div_bounds(n as int, d as int);
        }
        q0 as i128
    } else {
        let m: u128 = (-n) as u128;
        let du: u128 = d as u128;
        let a: u128 = m / du;
        proof {
            lemma_div_pos_is_pos(m as int, d as int);
            lemma_fundamental_div_mod(m as int, d as int);
            let ai = m as int / d as int;
            let b = m as int % d as int;
            assert((d as int) * ai + b == m as int);
            assert(n as int + d as int - 1 == (-ai) * (d as int) + (d as int - 1 - b))
                by (nonlinear_arith)
                requires
                    (d as int) * ai + b == m as int,
                    m as int == -(n as int),
            ;
            lemma_fundamental_div_mod_converse_div(
                n as int + d as int - 1,
                d as int,
                -ai,
                d as int - 1 - b,
            );
            lemma_div_is_ordered(a as int, m as int, d as int);
        }
        -(a as i128)
    }
}

/// Whether one pillar blocks the sight line from the observer to the target.
pub open spec fn pillar_blocks(pl: Pillar, ox: int, oy: int, tx: int, ty: int) -> bool {
    segment_hits_circle(ox, oy, tx, ty, pl.center.x as int, pl.center.y as int, pl.radius as int)
}

/// Whether one player's body of radius `PLAYER_RADIUS` blocks the sight line.
pub open spec fn player_blocks(body: Position, ox: int, oy: int, tx: int, ty: int) -> bool {
    segment_hits_circle(ox, oy, tx, ty, body.x as int, body.y as int, PLAYER_RADIUS as int)
}

/// Whether some pillar blocks the sight line from the observer to the target.
pub open spec fn blocked_by_pillar(p: Problem, ox: int, oy: int, tx: int, ty: int) -> bool {
    exists|k: int| 0 <= k < p.pillars@.len() && pillar_blocks(#[trigger] p.pillars@[k], ox, oy, tx, ty)
}

/// Whether some player other than the target itself (index `skip`) blocks
/// the sight line with its body.
pub open spec fn blocked_by_player(
    placements: Seq<Position>,
    skip: int,
    ox: int,
    oy: int,
    tx: int,
    ty: int,
) -> bool {
    exists|j: int|
        0 <= j < placements.len() && j != skip && player_blocks(
            #[trigger] placements[j],
            ox,
            oy,
            tx,
            ty,
        )
}

/// Whether the sight line from the observer to the target of player index
/// `skip` is blocked at all.
pub open spec fn sight_blocked(
    p: Problem,
    placements: Seq<Position>,
    skip: int,
    ox: int,
    oy: int,
    tx: int,
    ty: int,
) -> bool {
    blocked_by_pillar(p, ox, oy, tx, ty) || blocked_by_player(placements, skip, ox, oy, tx, ty)
}

/// The taste an attendee holds for a category; an index outside the taste
/// vector (including a negative one) counts as zero preference.
pub open spec fn taste_for(a: Attendee, category: int) -> int {
    if 0 <= category < a.tastes@.len() {
        a.tastes@[category] as int
    } else {
        0
    }
}

/// Contribution of the pair (attendee `a`, player `i` standing at `pos`):
/// zero when blocked or coincident, otherwise the scaled taste divided by
/// the squared distance, rounded toward positive infinity.
pub open spec fn pair_score(
    p: Problem,
    placements: Seq<Position>,
    i: int,
    pos: Position,
    a: Attendee,
) -> int {
    if sight_blocked(p, placements, i, a.x as int, a.y as int, pos.x as int, pos.y as int) {
        0
    } else {
        let d2 = dist_sq(a.x as int, a.y as int, pos.x as int, pos.y as int);
        if d2 == 0 {
            0
        } else {
            spec_ceil_div(taste_for(a, p.musicians@[i] as int) * SCORE_SCALE, d2)
        }
    }
}

/// Largest magnitude a single pair contribution can take.
pub open spec fn pair_bound() -> int {
    (TASTE_LIMIT as int) * (SCORE_SCALE as int)
}

/// Sum of the contributions of attendees `0 .. n_att` for player `i` at `pos`.
pub open spec fn player_score_sum(
    p: Problem,
    placements: Seq<Position>,
    i: int,
    pos: Position,
    n_att: int,
) -> int
    decreases n_att,
{
    if n_att <= 0 {
        0
    } else {
        player_score_sum(p, placements, i, pos, n_att - 1) + pair_score(
            p,
            placements,
            i,
            pos,
            p.attendees@[n_att - 1],
        )
    }
}

/// Marginal score of player `i` standing at `pos`: the attendee sum, or 0
/// when that player violates the stage margin.
pub open spec fn spec_player_score(
    p: Problem,
    placements: Seq<Position>,
    i: int,
    pos: Position,
) -> int {
    if on_stage(p, pos) {
        player_score_sum(p, placements, i, pos, p.attendees@.len() as int)
    } else {
        0
    }
}

/// Sum of the attendee sums of players `0 .. n_players`, each standing at
/// its own placement.
pub open spec fn solution_sum(p: Problem, placements: Seq<Position>, n_players: int) -> int
    decreases n_players,
{
    if n_players <= 0 {
        0
    } else {
        solution_sum(p, placements, n_players - 1) + player_score_sum(
            p,
            placements,
            n_players - 1,
            placements[n_players - 1],
            p.attendees@.len() as int,
        )
    }
}

/// Whole-solution score: the aggregate over all pairs, or exactly 0 when
/// any player violates the stage margin.
pub open spec fn spec_score(p: Problem, s: Solution) -> int {
    if all_on_stage(p, s.placements@) {
        solution_sum(p, s.placements@, s.placements@.len() as int)
    } else {
        0
    }
}

/// Whether any pillar of the problem blocks the sight line.
fn hits_any_pillar(p: &Problem, ox: i64, oy: i64, tx: i64, ty: i64) -> (hit: bool)
    requires
        wf_problem(*p),
        crate::icfp::valid_coord(ox as int),
        crate::icfp::valid_coord(oy as int),
        crate::icfp::valid_coord(tx as int),
        crate::icfp::valid_coord(ty as int),
    ensures
        hit == blocked_by_pillar(*p, ox as int, oy as int, tx as int, ty as int),
{
    let n = p.pillars.len();
    let mut hit = false;
    let mut k: usize = 0;
    while k < n
        invariant
            n == p.pillars@.len(),
            k <= n,
            wf_problem(*p),
            crate::icfp::valid_coord(ox as int),
            crate::icfp::valid_coord(oy as int),
            crate::icfp::valid_coord(tx as int),
            crate::icfp::valid_coord(ty as int),
            hit == exists|j: int|
                0 <= j < k && pillar_blocks(#[trigger] p.pillars@[j], ox as int, oy as int, tx as int, ty as int),
        decreases n - k,
    {
        let pl = p.pillars[k];
        let h = segment_hits_circle_exec(ox, oy, tx, ty, pl.center.x, pl.center.y, pl.radius);
        proof {
            if h {
                assert(pillar_blocks(p.pillars@[k as int], ox as int, oy as int, tx as int, ty as int));
            }
        }
        hit = hit || h;
        k = k + 1;
    }
    hit
}

/// Whether any player body other than the target's own blocks the sight line.
fn hits_other_player(
    placements: &Vec<Position>,
    skip: usize,
    ox: i64,
    oy: i64,
    tx: i64,
    ty: i64,
) -> (hit: bool)
    requires
        forall|j: int| 0 <= j < placements@.len() ==> valid_position(#[trigger] placements@[j]),
        crate::icfp::valid_coord(ox as int),
        crate::icfp::valid_coord(oy as int),
        crate::icfp::valid_coord(tx as int),
        crate::icfp::valid_coord(ty as int),
    ensures
        hit == blocked_by_player(placements@, skip as int, ox as int, oy as int, tx as int, ty as int),
{
    let n = placements.len();
    let mut hit = false;
    let mut k: usize = 0;
    while k < n
        invariant
            n == placements@.len(),
            k <= n,
            forall|j: int| 0 <= j < placements@.len() ==> valid_position(#[trigger] placements@[j]),
            crate::icfp::valid_coord(ox as int),
            crate::icfp::valid_coord(oy as int),
            crate::icfp::valid_coord(tx as int),
            crate::icfp::valid_coord(ty as int),
            hit == exists|j: int|
                0 <= j < k && j != skip && player_blocks(
                    #[trigger] placements@[j],
                    ox as int,
                    oy as int,
                    tx as int,
                    ty as int,
                ),
        decreases n - k,
    {
        if k != skip {
            let body = placements[k];
            let h = segment_hits_circle_exec(ox, oy, tx, ty, body.x, body.y, PLAYER_RADIUS);
            proof {
                if h {
                    assert(player_blocks(placements@[k as int], ox as int, oy as int, tx as int, ty as int));
                }
            }
            hit = hit || h;
        }
        k = k + 1;
    }
    hit
}

/// Contribution of one (attendee, player) pair, exactly as `pair_score`.
fn pair_score_exec(
    p: &Problem,
    placements: &Vec<Position>,
    i: usize,
    pos: Position,
    a: &Attendee,
) -> (c: i128)
    requires
        wf_problem(*p),
        forall|j: int| 0 <= j < placements@.len() ==> valid_position(#[trigger] placements@[j]),
        valid_position(pos),
        valid_attendee(*a),
        i < p.musicians@.len(),
    ensures
        c == pair_score(*p, placements@, i as int, pos, *a),
        -pair_bound() <= c <= pair_bound(),
{
    let blocked_p = hits_any_pillar(p, a.x, a.y, pos.x, pos.y);
    let blocked_b = hits_other_player(placements, i, a.x, a.y, pos.x, pos.y);
    if blocked_p || blocked_b {
        return 0;
    }
    let dx: i128 = pos.x as i128 - a.x as i128;
    let dy: i128 = pos.y as i128 - a.y as i128;
    proof {
        lemma_mul_bounds(dx as int, dx as int, 2_000_000_000, 2_000_000_000);
        lemma_mul_bounds(dy as int, dy as int, 2_000_000_000, 2_000_000_000);
        crate::geometry::lemma_sq_nonneg(dx as int);
        crate::geometry::lemma_sq_nonneg(dy as int);
    }
    let d2: i128 = dx * dx + dy * dy;
    if d2 == 0 {
        return 0;
    }
    let cat: i64 = p.musicians[i];
    let taste: i64 = if cat >= 0 && (cat as u64) < (a.tastes.len() as u64) {
        a.tastes[cat as usize]
    } else {
        0
    };
    proof {
        lemma_mul_bounds(taste as int, SCORE_SCALE as int, TASTE_LIMIT as int, SCORE_SCALE as int);
    }
    let numer: i128 = taste as i128 * SCORE_SCALE as i128;
    let c = ceil_div_i128(numer, d2);
    proof {
        lemma_ceil_div_bounds(numer as int, d2 as int);
        assert(taste as int == taste_for(*a, p.musicians@[i as int] as int));
        assert(d2 as int == dist_sq(a.x as int, a.y as int, pos.x as int, pos.y as int));
    }
    c
}

/// Sum over all attendees of the pair contributions for player `i` at `pos`.
fn attendee_sum(p: &Problem, placements: &Vec<Position>, i: usize, pos: Position) -> (total: i128)
    requires
        wf_problem(*p),
        forall|j: int| 0 <= j < placements@.len() ==> valid_position(#[trigger] placements@[j]),
        valid_position(pos),
        i < p.musicians@.len(),
    ensures
        total == player_score_sum(*p, placements@, i as int, pos, p.attendees@.len() as int),
        -(p.attendees@.len() * pair_bound()) <= total <= p.attendees@.len() * pair_bound(),
{
    let n = p.attendees.len();
    let mut total: i128 = 0;
    let mut k: usize = 0;
    while k < n
        invariant
            n == p.attendees@.len(),
            k <= n,
            wf_problem(*p),
            forall|j: int| 0 <= j < placements@.len() ==> valid_position(#[trigger] placements@[j]),
            valid_position(pos),
            i < p.musicians@.len(),
            total == player_score_sum(*p, placements@, i as int, pos, k as int),
            -(k * pair_bound()) <= total <= k * pair_bound(),
        decreases n - k,
    {
        let a = &p.attendees[k];
        let c = pair_score_exec(p, placements, i, pos, a);
        proof {
            assert(player_score_sum(*p, placements@, i as int, pos, k + 1) == player_score_sum(
                *p,
                placements@,
                i as int,
                pos,
                k as int,
            ) + pair_score(*p, placements@, i as int, pos, p.attendees@[k as int]));
            assert(pair_bound() == 1_000_000_000_000_000);
            assert((k + 1) * pair_bound() == k * pair_bound() + pair_bound()) by (nonlinear_arith);
            lemma_mul_bounds(k as int, pair_bound(), 1_000_000, 1_000_000_000_000_000);
        }
        total = total + c;
        k = k + 1;
    }
    total
}

/// Marginal score of one player standing at `player`, evaluated against the
/// other placements of the solution; zero when that position violates the
/// stage margin.
pub fn player_scorer(
    problem: &Problem,
    solution: &Solution,
    player: &Position,
    player_index: usize,
) -> (score: i128)
    requires
        wf_problem(*problem),
        wf_solution(*solution),
        solution.placements@.len() == problem.musicians@.len(),
        player_index < problem.musicians@.len(),
        valid_position(*player),
    ensures
        score == spec_player_score(*problem, solution.placements@, player_index as int, *player),
{
    let total = attendee_sum(problem, &solution.placements, player_index, *player);
    if is_on_stage(problem, *player) {
        total
    } else {
        0
    }
}

/// Whole-solution score: the sum of every (attendee, player) contribution,
/// collapsed to exactly 0 when any player violates the stage margin.
pub fn scorer(problem: &Problem, solution: &Solution) -> (score: i128)
    requires
        wf_problem(*problem),
        wf_solution(*solution),
        solution.placements@.len() == problem.musicians@.len(),
    ensures
        score == spec_score(*problem, *solution),
{
    let placements = &solution.placements;
    let n = placements.len();
    let ghost m: int = p_full_bound(*problem);
    let mut total: i128 = 0;
    let mut ok = true;
    let mut k: usize = 0;
    while k < n
        invariant
            n == placements@.len(),
            k <= n,
            wf_problem(*problem),
            wf_solution(*solution),
            placements == solution.placements,
            placements@.len() == problem.musicians@.len(),
            m == p_full_bound(*problem),
            total == solution_sum(*problem, placements@, k as int),
            -(k * m) <= total <= k * m,
            ok == (forall|j: int| 0 <= j < k ==> on_stage(*problem, #[trigger] placements@[j])),
        decreases n - k,
    {
        let pos = placements[k];
        let s = attendee_sum(problem, placements, k, pos);
        let on = is_on_stage(problem, pos);
        proof {
            let a_len = problem.attendees@.len() as int;
            assert(pair_bound() == 1_000_000_000_000_000);
            lemma_mul_bounds(a_len, 1_000_000_000_000_000, 1_000_000, 1_000_000_000_000_000);
            lemma_mul_bounds(k as int, m, 1_000_000, 1_000_000_000_000_000_000_000);
            assert((k + 1) * m == k * m + m) by (nonlinear_arith);
            assert(solution_sum(*problem, placements@, k + 1) == solution_sum(
                *problem,
                placements@,
                k as int,
            ) + player_score_sum(*problem, placements@, k as int, placements@[k as int], a_len));
        }
        total = total + s;
        ok = ok && on;
        k = k + 1;
    }
    if ok {
        total
    } else {
        0
    }
}

/// Bound on the magnitude of one player's attendee sum.
pub open spec fn p_full_bound(p: Problem) -> int {
    p.attendees@.len() * pair_bound()
}

/// Blocking correctness: a pillar centered exactly on the midpoint of the
/// segment between an attendee and a player blocks that pair for every
/// positive radius, so the pair contributes 0.
pub proof fn lemma_pillar_on_midpoint_blocks(
    p: Problem,
    placements: Seq<Position>,
    i: int,
    pos: Position,
    a: Attendee,
    k: int,
)
    requires
        0 <= k < p.pillars@.len(),
        2 * p.pillars@[k].center.x == a.x + pos.x,
        2 * p.pillars@[k].center.y == a.y + pos.y,
        p.pillars@[k].radius >= 1,
    ensures
        pair_score(p, placements, i, pos, a) == 0,
{
    let pl = p.pillars@[k];
    crate::geometry::lemma_midpoint_hits(
        a.x as int,
        a.y as int,
        pos.x as int,
        pos.y as int,
        pl.center.x as int,
        pl.center.y as int,
        pl.radius as int,
    );
    assert(pillar_blocks(pl, a.x as int, a.y as int, pos.x as int, pos.y as int));
    assert(blocked_by_pillar(p, a.x as int, a.y as int, pos.x as int, pos.y as int));
}

/// Boundary zeroing: a solution with any player standing exactly at the
/// stage's bottom-left corner scores exactly 0 as a whole, whatever the
/// other players would have contributed.
pub proof fn lemma_boundary_zeroing(p: Problem, s: Solution, i: int)
    requires
        0 <= i < s.placements@.len(),
        s.placements@[i] == p.stage_bottom_left,
    ensures
        spec_score(p, s) == 0,
{
    assert(!on_stage(p, s.placements@[i]));
}

/// Idempotence of scoring: the score is a pure function of the problem and
/// the solution, so any two results of scoring the same pair are identical
/// — there is no hidden mutable state.
pub proof fn lemma_scoring_deterministic(p: Problem, s: Solution, r1: int, r2: int)
    requires
        r1 == spec_score(p, s),
        r2 == spec_score(p, s),
    ensures
        r1 == r2,
{
}

/// Occlusion by a second player: a player body standing exactly on the
/// segment between an attendee and the target player blocks the pair, so
/// the pair contributes 0. "On the segment" is stated algebraically over
/// the coordinates; observer and target must be distinct points.
pub proof fn lemma_second_player_occludes(
    p: Problem,
    placements: Seq<Position>,
    i: int,
    pos: Position,
    a: Attendee,
    j: int,
)
    requires
        0 <= j < placements.len(),
        j != i,
        (placements[j].x - a.x) * (pos.y - a.y) == (placements[j].y - a.y) * (pos.x - a.x),
        0 <= (placements[j].x - a.x) * (pos.x - a.x) + (placements[j].y - a.y) * (pos.y - a.y),
        (placements[j].x - a.x) * (pos.x - a.x) + (placements[j].y - a.y) * (pos.y - a.y)
            <= dist_sq(a.x as int, a.y as int, pos.x as int, pos.y as int),
        dist_sq(a.x as int, a.y as int, pos.x as int, pos.y as int) > 0,
    ensures
        pair_score(p, placements, i, pos, a) == 0,
{
    crate::geometry::lemma_point_on_segment_hits(
        a.x as int,
        a.y as int,
        pos.x as int,
        pos.y as int,
        placements[j].x as int,
        placements[j].y as int,
        PLAYER_RADIUS as int,
    );
    assert(player_blocks(placements[j], a.x as int, a.y as int, pos.x as int, pos.y as int));
    assert(blocked_by_player(placements, i, a.x as int, a.y as int, pos.x as int, pos.y as int));
}

} // verus!
