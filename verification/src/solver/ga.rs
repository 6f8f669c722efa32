//! Evolutionary search over placements.
//!
//! A population of scored placements is kept sorted by descending score;
//! each generation truncates to the top survivors and refills by sampling
//! two survivor parents (uniformly, with replacement) per offspring. The
//! offspring policy walks an ordered list of probabilistic branches: a
//! transposition mutation of the first parent, a plain copy of it, a copy
//! of the better parent, and otherwise a fresh random individual. Genuine
//! recombination of the two parents is deliberately absent: the operator
//! leans on random restarts and elitism rather than crossover.
//!
//! Survivor truncation keeps the best individual, so the top score can
//! never regress between generations; that is stated on `evolve_generation`.

use vstd::prelude::*;

verus! {

broadcast use vstd::seq_lib::group_to_multiset_ensures;

use vstd::multiset::Multiset;
use vstd::pervasive::VecAdditionalExecFns;
use crate::icfp::{
    all_on_stage,
    valid_position,
    wf_problem,
    wf_solution,
    Position,
    Problem,
    Solution,
};
use crate::rng::{rng_below, rng_ratio};
use crate::scorer::{scorer, spec_score};
use crate::solver::random_of_n::{
    cell_form,
    is_cell_position,
    pairwise_distinct,
    rand_capacity,
    solve_once,
};
use crate::solver::SolveError;

/// Individuals kept per generation.
pub const POPULATION_SIZE: usize = 100;

/// Individuals that survive truncation each generation.
pub const SURVIVOR_COUNT: usize = 20;

/// Generations run by `solve`.
pub const GENERATIONS: u64 = 100;

/// Probability, in percent, of each of the three non-default offspring
/// branches: swap mutation, plain copy, better-parent copy.
pub const BRANCH_PERCENT: u32 = 10;

/// A scored placement.
pub struct Individual {
    pub solution: Solution,
    pub score: i128,
}

/// An individual the population accepts: a full, on-stage, well-formed
/// placement whose recorded score is its actual score.
pub open spec fn wf_individual(p: Problem, ind: Individual) -> bool {
    &&& wf_solution(ind.solution)
    &&& ind.solution.placements@.len() == p.musicians@.len()
    &&& all_on_stage(p, ind.solution.placements@)
    &&& ind.score == spec_score(p, ind.solution)
}

/// Scores never increase along the sequence.
pub open spec fn sorted_desc(s: Seq<Individual>) -> bool {
    forall|i: int, j: int| 0 <= i <= j < s.len() ==> s[i].score >= s[j].score
}

/// The individual's placements sit on pairwise-distinct cells of the
/// randomized generator's grid.
pub open spec fn collision_free(p: Problem, ind: Individual) -> bool {
    pairwise_distinct(ind.solution.placements@) && cell_form(p, ind.solution.placements@)
}

/// `ind` carries exactly the placements and the score of `parent`.
pub open spec fn copy_of(parent: Individual, ind: Individual) -> bool {
    ind.solution.placements@ == parent.solution.placements@ && ind.score == parent.score
}

/// `ind`'s placements are `parent`'s with two slots exchanged.
pub open spec fn transposed_copy_of(parent: Individual, ind: Individual) -> bool {
    exists|i: int, j: int|
        0 <= i < parent.solution.placements@.len() && 0 <= j < parent.solution.placements@.len()
            && ind.solution.placements@ == parent.solution.placements@.update(
            i,
            parent.solution.placements@[j],
        ).update(j, parent.solution.placements@[i])
}

/// Every outcome of the offspring policy, in branch order: a rescored
/// transposed copy of the first parent, a plain copy of it, a copy of the
/// better parent (the second on ties), or a fresh random individual —
/// which is always collision-free and only exists when the players fit the
/// cell capacity.
pub open spec fn offspring_of(
    p: Problem,
    parent_a: Individual,
    parent_b: Individual,
    ind: Individual,
) -> bool {
    ||| transposed_copy_of(parent_a, ind)
    ||| copy_of(parent_a, ind)
    ||| (if parent_a.score > parent_b.score {
        copy_of(parent_a, ind)
    } else {
        copy_of(parent_b, ind)
    })
    ||| (collision_free(p, ind) && p.musicians@.len() <= rand_capacity(p))
}

/// `ind` is an offspring of two parents drawn from `survivors`.
pub open spec fn offspring_of_survivors(
    p: Problem,
    survivors: Seq<Individual>,
    ind: Individual,
) -> bool {
    exists|ia: int, ib: int|
        0 <= ia < survivors.len() && 0 <= ib < survivors.len() && offspring_of(
            p,
            survivors[ia],
            survivors[ib],
            ind,
        )
}

/// A transposition preserves distinctness and the cell form.
proof fn lemma_swap_keeps_placements(p: Problem, s: Seq<Position>, i: int, j: int)
    requires
        0 <= i < s.len(),
        0 <= j < s.len(),
    ensures
        pairwise_distinct(s) ==> pairwise_distinct(s.update(i, s[j]).update(j, s[i])),
        cell_form(p, s) ==> cell_form(p, s.update(i, s[j]).update(j, s[i])),
{
    let t = s.update(i, s[j]).update(j, s[i]);
    if pairwise_distinct(s) {
        assert forall|a: int, b: int| 0 <= a < b < t.len() implies t[a] != t[b] by {
            let sa = if a == j {
                i
            } else if a == i {
                j
            } else {
                a
            };
            let sb = if b == j {
                i
            } else if b == i {
                j
            } else {
                b
            };
            assert(t[a] == s[sa]);
            assert(t[b] == s[sb]);
            if sa < sb {
                assert(s[sa] != s[sb]);
            } else {
                assert(s[sb] != s[sa]);
            }
        }
    }
    if cell_form(p, s) {
        assert forall|a: int| 0 <= a < t.len() implies is_cell_position(p, #[trigger] t[a]) by {
            assert(t[a] == s[a] || t[a] == s[i] || t[a] == s[j]);
        }
    }
}

/// Every offspring of collision-free parents is collision-free: copies and
/// transpositions inherit the property, and a fresh individual has it by
/// construction.
proof fn lemma_offspring_collision_free(
    p: Problem,
    parent_a: Individual,
    parent_b: Individual,
    ind: Individual,
)
    requires
        offspring_of(p, parent_a, parent_b, ind),
        collision_free(p, parent_a),
        collision_free(p, parent_b),
    ensures
        collision_free(p, ind),
{
    if transposed_copy_of(parent_a, ind) {
        let s = parent_a.solution.placements@;
        let (i, j): (int, int) = choose|i: int, j: int|
            0 <= i < s.len() && 0 <= j < s.len() && ind.solution.placements@ == s.update(
                i,
                s[j],
            ).update(j, s[i]);
        lemma_swap_keeps_placements(p, s, i, j);
    }
}

/// An element-for-element copy of a placement list.
fn clone_placements(v: &Vec<Position>) -> (r: Vec<Position>)
    ensures
        r@ == v@,
{
    let mut r: Vec<Position> = Vec::new();
    let mut i: usize = 0;
    while i < v.len()
        invariant
            i <= v@.len(),
            r@.len() == i,
            forall|j: int| 0 <= j < i ==> r@[j] == v@[j],
        decreases v@.len() - i,
    {
        r.push(v[i]);
        i = i + 1;
    }
    proof {
        assert(r@ =~= v@);
    }
    r
}

/// A copy of an individual with the same placements and the same score.
fn clone_individual(ind: &Individual) -> (r: Individual)
    ensures
        r.solution.placements@ == ind.solution.placements@,
        r.score == ind.score,
{
    Individual {
        solution: Solution { placements: clone_placements(&ind.solution.placements) },
        score: ind.score,
    }
}

/// Transposition mutation: two uniformly random slots exchanged. An empty
/// placement list is returned unchanged.
fn mutate_swap_placements(
    placements: Vec<Position>,
    rng: &mut rand::rngs::StdRng,
) -> (r: Vec<Position>)
    ensures
        r@.len() == placements@.len(),
        placements@.len() == 0 ==> r@ == placements@,
        placements@.len() > 0 ==> exists|a: int, b: int|
            0 <= a < placements@.len() && 0 <= b < placements@.len() && r@ == placements@.update(
                a,
                placements@[b],
            ).update(b, placements@[a]),
{
    let n = placements.len();
    if n == 0 {
        return placements;
    }
    let mut placements = placements;
    let a = rng_below(rng, n as u64) as usize;
    let b = rng_below(rng, n as u64) as usize;
    let va = placements[a];
    let vb = placements[b];
    placements.set(a, vb);
    placements.set(b, va);
    placements
}

/// One randomized individual: a fresh random placement with its score. A
/// success is always collision-free and certifies that the players fit the
/// cell capacity; an exhausted draw budget takes at least two players.
fn generate_random_individual(problem: &Problem, rng: &mut rand::rngs::StdRng) -> (r: Result<
    Individual,
    SolveError,
>)
    requires
        wf_problem(*problem),
    ensures
        match r {
            Ok(ind) => {
                &&& wf_individual(*problem, ind)
                &&& collision_free(*problem, ind)
                &&& problem.musicians@.len() <= rand_capacity(*problem)
            },
            Err(e) => match e {
                SolveError::InsufficientStage { players, cells } => problem.musicians@.len()
                    > rand_capacity(*problem),
                SolveError::RetriesExhausted => {
                    &&& problem.musicians@.len() <= rand_capacity(*problem)
                    &&& problem.musicians@.len() >= 2
                },
            },
        },
{
    let solution = match solve_once(problem, rng) {
        Ok(s) => s,
        Err(e) => {
            return Err(e);
        },
    };
    let score = scorer(problem, &solution);
    Ok(Individual { solution, score })
}

/// One offspring from two parents, by the ordered probabilistic branches.
/// Every successful outcome is one of the four forms of `offspring_of`.
fn generate_offspring(
    problem: &Problem,
    parent_a: &Individual,
    parent_b: &Individual,
    rng: &mut rand::rngs::StdRng,
) -> (r: Result<Individual, SolveError>)
    requires
        wf_problem(*problem),
        wf_individual(*problem, *parent_a),
        wf_individual(*problem, *parent_b),
    ensures
        match r {
            Ok(ind) => {
                &&& wf_individual(*problem, ind)
                &&& offspring_of(*problem, *parent_a, *parent_b, ind)
            },
            Err(e) => match e {
                SolveError::InsufficientStage { players, cells } => problem.musicians@.len()
                    > rand_capacity(*problem),
                SolveError::RetriesExhausted => {
                    &&& problem.musicians@.len() <= rand_capacity(*problem)
                    &&& problem.musicians@.len() >= 2
                },
            },
        },
{
    if rng_ratio(rng, BRANCH_PERCENT, 100) {
        let copied = clone_placements(&parent_a.solution.placements);
        let ghost before: Seq<Position> = copied@;
        let mutated = mutate_swap_placements(copied, rng);
        proof {
            if before.len() > 0 {
                let (a, b): (int, int) = choose|a: int, b: int|
                    0 <= a < before.len() && 0 <= b < before.len() && mutated@ == before.update(
                        a,
                        before[b],
                    ).update(b, before[a]);
                assert forall|k: int| 0 <= k < mutated@.len() implies valid_position(
                    #[trigger] mutated@[k],
                ) && crate::icfp::on_stage(*problem, mutated@[k]) by {
                    assert(mutated@[k] == before[k] || mutated@[k] == before[a] || mutated@[k]
                        == before[b]);
                }
            }
        }
        let solution = Solution { placements: mutated };
        let score = scorer(problem, &solution);
        let ind = Individual { solution, score };
        proof {
            if before.len() > 0 {
                let (a, b): (int, int) = choose|a: int, b: int|
                    0 <= a < before.len() && 0 <= b < before.len() && mutated@ == before.update(
                        a,
                        before[b],
                    ).update(b, before[a]);
                assert(ind.solution.placements@ == parent_a.solution.placements@.update(
                    a,
                    parent_a.solution.placements@[b],
                ).update(b, parent_a.solution.placements@[a]));
                assert(transposed_copy_of(*parent_a, ind));
            } else {
                // the transposition of an empty placement list is a copy
                assert(ind.solution.placements@ == parent_a.solution.placements@);
                assert(spec_score(*problem, ind.solution) == spec_score(
                    *problem,
                    parent_a.solution,
                ));
                assert(copy_of(*parent_a, ind));
            }
        }
        return Ok(ind);
    }
    if rng_ratio(rng, BRANCH_PERCENT, 100) {
        let ind = clone_individual(parent_a);
        proof {
            assert(copy_of(*parent_a, ind));
            assert(spec_score(*problem, ind.solution) == spec_score(*problem, parent_a.solution));
        }
        return Ok(ind);
    }
    if rng_ratio(rng, BRANCH_PERCENT, 100) {
        if parent_a.score > parent_b.score {
            let ind = clone_individual(parent_a);
            proof {
                assert(copy_of(*parent_a, ind));
                assert(spec_score(*problem, ind.solution) == spec_score(
                    *problem,
                    parent_a.solution,
                ));
            }
            return Ok(ind);
        } else {
            let ind = clone_individual(parent_b);
            proof {
                assert(copy_of(*parent_b, ind));
                assert(spec_score(*problem, ind.solution) == spec_score(
                    *problem,
                    parent_b.solution,
                ));
            }
            return Ok(ind);
        }
    }
    generate_random_individual(problem, rng)
}

/// Selection sort into descending score order. The result is the same
/// multiset of individuals; every element of the result was an element of
/// the input.
fn sort_by_score_desc(v: &mut Vec<Individual>)
    ensures
        final(v)@.len() == old(v)@.len(),
        sorted_desc(final(v)@),
        final(v)@.to_multiset() == old(v)@.to_multiset(),
        forall|x: Individual| #[trigger] final(v)@.contains(x) ==> old(v)@.contains(x),
{
    let mut out: Vec<Individual> = Vec::new();
    while v.len() > 0
        invariant
            out@.to_multiset().add(v@.to_multiset()) == old(v)@.to_multiset(),
            out@.len() + v@.len() == old(v)@.len(),
            sorted_desc(out@),
            forall|i: int, j: int|
                0 <= i < out@.len() && 0 <= j < v@.len() ==> out@[i].score >= v@[j].score,
        decreases v@.len(),
    {
        let n = v.len();
        let mut imax: usize = 0;
        let mut k: usize = 1;
        while k < n
            invariant
                n == v@.len(),
                imax < k <= n,
                forall|j: int| 0 <= j < k ==> v@[imax as int].score >= v@[j].score,
            decreases n - k,
        {
            if v[k].score > v[imax].score {
                imax = k;
            }
            k = k + 1;
        }
        let ghost prior: Seq<Individual> = v@;
        let ghost prior_out: Seq<Individual> = out@;
        let x = v.remove(imax);
        out.push(x);
        proof {
            prior.remove_ensures(imax as int);
            assert(prior[imax as int] == x);
            assert(prior.to_multiset().count(x) > 0) by {
                assert(prior.contains(x));
            }
            assert(out@.to_multiset().add(v@.to_multiset()) =~= prior_out.to_multiset().add(
                prior.to_multiset(),
            ));
            assert forall|j: int| 0 <= j < v@.len() implies x.score >= #[trigger] v@[j].score by {
                if j < imax as int {
                    assert(v@[j] == prior[j]);
                } else {
                    assert(v@[j] == prior[j + 1]);
                }
            }
            assert forall|i: int| 0 <= i < prior_out.len() implies #[trigger] prior_out[i].score
                >= x.score by {
                assert(prior_out[i].score >= prior[imax as int].score);
            }
            assert forall|i: int, j: int|
                0 <= i < out@.len() && 0 <= j < v@.len() implies #[trigger] out@[i].score
                >= #[trigger] v@[j].score by {
                let pj = if j < imax as int {
                    j
                } else {
                    j + 1
                };
                assert(v@[j] == prior[pj]);
                if i < prior_out.len() {
                    assert(out@[i] == prior_out[i]);
                    assert(prior_out[i].score >= prior[pj].score);
                } else {
                    assert(out@[i] == x);
                }
            }
            assert(sorted_desc(out@)) by {
                assert forall|i: int, j: int|
                    0 <= i <= j < out@.len() implies #[trigger] out@[i].score
                    >= #[trigger] out@[j].score by {
                    if j < prior_out.len() {
                        assert(out@[i] == prior_out[i] && out@[j] == prior_out[j]);
                    } else if i < prior_out.len() {
                        assert(out@[i] == prior_out[i] && out@[j] == x);
                    }
                }
            }
        }
    }
    proof {
        assert(v@ =~= Seq::<Individual>::empty());
        assert(v@.to_multiset() =~= Multiset::<Individual>::empty());
        assert(out@.to_multiset() =~= old(v)@.to_multiset());
        assert forall|x: Individual| #[trigger] out@.contains(x) implies old(v)@.contains(x) by {
            assert(out@.to_multiset().count(x) > 0);
            assert(old(v)@.to_multiset().count(x) > 0);
        }
    }
    *v = out;
}

/// One generation: truncate to the survivors, refill with offspring of
/// survivor parents, and re-sort. The result is exactly a permutation of
/// the first `SURVIVOR_COUNT` survivors plus offspring of survivor parents
/// (the refill clause below), the best individual survives truncation and
/// sorting, so the top score never decreases — the evolutionary
/// non-regression law — and collision-free placements are preserved from
/// one generation to the next.
pub fn evolve_generation(
    problem: &Problem,
    population: &mut Vec<Individual>,
    rng: &mut rand::rngs::StdRng,
) -> (r: Result<(), SolveError>)
    requires
        wf_problem(*problem),
        old(population)@.len() == POPULATION_SIZE,
        sorted_desc(old(population)@),
        forall|i: int|
            0 <= i < old(population)@.len() ==> wf_individual(
                *problem,
                #[trigger] old(population)@[i],
            ),
    ensures
        match r {
            Ok(()) => {
                &&& final(population)@.len() == POPULATION_SIZE
                &&& sorted_desc(final(population)@)
                &&& forall|i: int|
                    0 <= i < final(population)@.len() ==> wf_individual(
                        *problem,
                        #[trigger] final(population)@[i],
                    )
                &&& final(population)@[0].score >= old(population)@[0].score
                &&& (exists|refilled: Seq<Individual>|
                    #![trigger refilled.len()]
                    {
                        &&& refilled.len() == POPULATION_SIZE
                        &&& refilled.subrange(0, SURVIVOR_COUNT as int) == old(
                            population,
                        )@.subrange(0, SURVIVOR_COUNT as int)
                        &&& forall|k: int|
                            SURVIVOR_COUNT <= k < refilled.len() ==> offspring_of_survivors(
                                *problem,
                                refilled.subrange(0, SURVIVOR_COUNT as int),
                                #[trigger] refilled[k],
                            )
                        &&& final(population)@.to_multiset() == refilled.to_multiset()
                    })
                &&& (forall|i: int|
                    0 <= i < old(population)@.len() ==> collision_free(
                        *problem,
                        #[trigger] old(population)@[i],
                    )) ==> forall|i: int|
                    0 <= i < final(population)@.len() ==> collision_free(
                        *problem,
                        #[trigger] final(population)@[i],
                    )
            },
            Err(e) => match e {
                SolveError::InsufficientStage { players, cells } => problem.musicians@.len()
                    > rand_capacity(*problem),
                SolveError::RetriesExhausted => {
                    &&& problem.musicians@.len() <= rand_capacity(*problem)
                    &&& problem.musicians@.len() >= 2
                },
            },
        },
{
    let ghost orig: Seq<Individual> = old(population)@;
    let ghost top: Individual = orig[0];
    let ghost inputs_ok: bool = forall|i: int|
        0 <= i < orig.len() ==> collision_free(*problem, #[trigger] orig[i]);
    population.truncate(SURVIVOR_COUNT);
    let ghost survivors: Seq<Individual> = population@;
    proof {
        assert(survivors == orig.subrange(0, SURVIVOR_COUNT as int));
        assert(population@[0] == top);
        if inputs_ok {
            assert forall|i: int| 0 <= i < population@.len() implies collision_free(
                *problem,
                #[trigger] population@[i],
            ) by {
                assert(population@[i] == orig[i]);
            }
        }
    }
    while population.len() < POPULATION_SIZE
        invariant
            wf_problem(*problem),
            SURVIVOR_COUNT <= population@.len() <= POPULATION_SIZE,
            survivors.len() == SURVIVOR_COUNT,
            survivors == orig.subrange(0, SURVIVOR_COUNT as int),
            population@.subrange(0, SURVIVOR_COUNT as int) == survivors,
            population@[0] == top,
            inputs_ok == (forall|i: int|
                0 <= i < orig.len() ==> collision_free(*problem, #[trigger] orig[i])),
            orig.len() == POPULATION_SIZE,
            forall|i: int|
                0 <= i < population@.len() ==> wf_individual(
                    *problem,
                    #[trigger] population@[i],
                ),
            forall|k: int|
                SURVIVOR_COUNT <= k < population@.len() ==> offspring_of_survivors(
                    *problem,
                    survivors,
                    #[trigger] population@[k],
                ),
            inputs_ok ==> forall|i: int|
                0 <= i < population@.len() ==> collision_free(
                    *problem,
                    #[trigger] population@[i],
                ),
        decreases POPULATION_SIZE - population@.len(),
    {
        let ia = rng_below(rng, SURVIVOR_COUNT as u64) as usize;
        let ib = rng_below(rng, SURVIVOR_COUNT as u64) as usize;
        proof {
            assert(population@[ia as int] == population@.subrange(0, SURVIVOR_COUNT as int)[
                ia as int]);
            assert(population@[ib as int] == population@.subrange(0, SURVIVOR_COUNT as int)[
                ib as int]);
        }
        let off = match generate_offspring(problem, &population[ia], &population[ib], rng) {
            Ok(o) => o,
            Err(e) => {
                return Err(e);
            },
        };
        let ghost prior: Seq<Individual> = population@;
        population.push(off);
        proof {
            assert(population@.subrange(0, SURVIVOR_COUNT as int) =~= survivors);
            assert(offspring_of_survivors(*problem, survivors, off)) by {
                assert(offspring_of(
                    *problem,
                    survivors[ia as int],
                    survivors[ib as int],
                    off,
                ));
            }
            assert forall|k: int|
                SURVIVOR_COUNT <= k < population@.len() implies offspring_of_survivors(
                    *problem,
                    survivors,
                    #[trigger] population@[k],
                ) by {
                if k < prior.len() {
                    assert(population@[k] == prior[k]);
                } else {
                    assert(population@[k] == off);
                }
            }
            if inputs_ok {
                assert(survivors[ia as int] == orig[ia as int]);
                assert(survivors[ib as int] == orig[ib as int]);
                lemma_offspring_collision_free(
                    *problem,
                    survivors[ia as int],
                    survivors[ib as int],
                    off,
                );
                assert forall|i: int| 0 <= i < population@.len() implies collision_free(
                    *problem,
                    #[trigger] population@[i],
                ) by {
                    if i < prior.len() {
                        assert(population@[i] == prior[i]);
                    }
                }
            }
        }
    }
    let ghost before_sort: Seq<Individual> = population@;
    sort_by_score_desc(population);
    proof {
        assert(before_sort.contains(top)) by {
            assert(before_sort[0] == top);
        }
        assert(population@.to_multiset().count(top) > 0);
        assert(population@.contains(top));
        let j = choose|j: int| 0 <= j < population@.len() && population@[j] == top;
        assert(population@[0].score >= population@[j].score);
        assert forall|i: int| 0 <= i < population@.len() implies wf_individual(
            *problem,
            #[trigger] population@[i],
        ) by {
            assert(population@.contains(population@[i]));
            assert(before_sort.contains(population@[i]));
            let w = choose|w: int|
                0 <= w < before_sort.len() && before_sort[w] == population@[i];
            assert(wf_individual(*problem, before_sort[w]));
        }
        // before_sort is the refill witness: the survivor prefix unchanged,
        // every later element an offspring of two survivors
        assert(before_sort.len() == POPULATION_SIZE);
        assert(before_sort.subrange(0, SURVIVOR_COUNT as int) == survivors);
        assert(before_sort.subrange(0, SURVIVOR_COUNT as int) == old(population)@.subrange(
            0,
            SURVIVOR_COUNT as int,
        ));
        assert(forall|k: int|
            SURVIVOR_COUNT <= k < before_sort.len() ==> offspring_of_survivors(
                *problem,
                before_sort.subrange(0, SURVIVOR_COUNT as int),
                #[trigger] before_sort[k],
            ));
        assert(population@.to_multiset() == before_sort.to_multiset());
        if inputs_ok {
            assert forall|i: int| 0 <= i < population@.len() implies collision_free(
                *problem,
                #[trigger] population@[i],
            ) by {
                assert(population@.contains(population@[i]));
                assert(before_sort.contains(population@[i]));
                let w = choose|w: int|
                    0 <= w < before_sort.len() && before_sort[w] == population@[i];
                assert(collision_free(*problem, before_sort[w]));
            }
        }
    }
    Ok(())
}

/// Evolutionary search: an initial random population improved over a fixed
/// number of generations; the best individual's placement is returned. The
/// result always holds one position per musician, every position on a
/// distinct cell of the generator's grid.
pub fn solve(problem: &Problem, rng: &mut rand::rngs::StdRng) -> (r: Result<Solution, SolveError>)
    requires
        wf_problem(*problem),
    ensures
        match r {
            Ok(s) => {
                &&& s.placements@.len() == problem.musicians@.len()
                &&& wf_solution(s)
                &&& all_on_stage(*problem, s.placements@)
                &&& pairwise_distinct(s.placements@)
                &&& cell_form(*problem, s.placements@)
            },
            Err(e) => match e {
                SolveError::InsufficientStage { players, cells } => problem.musicians@.len()
                    > rand_capacity(*problem),
                SolveError::RetriesExhausted => {
                    &&& problem.musicians@.len() <= rand_capacity(*problem)
                    &&& problem.musicians@.len() >= 2
                },
            },
        },
{
    let mut population: Vec<Individual> = Vec::new();
    while population.len() < POPULATION_SIZE
        invariant
            wf_problem(*problem),
            population@.len() <= POPULATION_SIZE,
            forall|i: int|
                0 <= i < population@.len() ==> wf_individual(
                    *problem,
                    #[trigger] population@[i],
                ),
            forall|i: int|
                0 <= i < population@.len() ==> collision_free(
                    *problem,
                    #[trigger] population@[i],
                ),
        decreases POPULATION_SIZE - population@.len(),
    {
        let ind = match generate_random_individual(problem, rng) {
            Ok(ind) => ind,
            Err(e) => {
                return Err(e);
            },
        };
        population.push(ind);
    }
    let ghost before_sort: Seq<Individual> = population@;
    sort_by_score_desc(&mut population);
    proof {
        assert forall|i: int| 0 <= i < population@.len() implies wf_individual(
            *problem,
            #[trigger] population@[i],
        ) && collision_free(*problem, population@[i]) by {
            assert(population@.contains(population@[i]));
            assert(before_sort.contains(population@[i]));
            let w = choose|w: int|
                0 <= w < before_sort.len() && before_sort[w] == population@[i];
            assert(wf_individual(*problem, before_sort[w]));
            assert(collision_free(*problem, before_sort[w]));
        }
    }
    let mut generation: u64 = 0;
    while generation < GENERATIONS
        invariant
            wf_problem(*problem),
            population@.len() == POPULATION_SIZE,
            sorted_desc(population@),
            forall|i: int|
                0 <= i < population@.len() ==> wf_individual(
                    *problem,
                    #[trigger] population@[i],
                ),
            forall|i: int|
                0 <= i < population@.len() ==> collision_free(
                    *problem,
                    #[trigger] population@[i],
                ),
            generation <= GENERATIONS,
        decreases GENERATIONS - generation,
    {
        match evolve_generation(problem, &mut population, rng) {
            Ok(()) => {},
            Err(e) => {
                return Err(e);
            },
        }
        generation = generation + 1;
    }
    let best = &population[0];
    Ok(Solution { placements: clone_placements(&best.solution.placements) })
}

} // verus!
