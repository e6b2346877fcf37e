//! The steps of the generational loop: a first population, scoring, ranking
//! and breeding the next population.

use vstd::prelude::*;
use rand::rngs::StdRng;
use crate::constants::{ELITISM_COUNT, NUM_GENERATIONS, NUM_LINES, OUTPUT_EVERY, POPULATION_SIZE,
    RENDER_SIZE};
use crate::evolution::{can_win, crossed, crossover, line_mutated, mutate, tournament_selection};
use crate::fitness::{Mse, sum_squared_error, lemma_error_bound};
use crate::genotype::{Genotype, Individual, Line, fitter, lines_in_bounds, rankable,
    lemma_fitter_asymmetric, lemma_not_fitter_transitive};
use crate::render::{PixelBuffer, calculate_mse, render_genotype, rendered};

verus! {

/// The error of the picture of the lines against the target.
pub open spec fn score(lines: Seq<Line>, target: Seq<u8>) -> Mse {
    Mse {
        sum: sum_squared_error(rendered(lines, RENDER_SIZE as int), target) as u64,
        count: target.len() as usize,
    }
}

/// The target covers the whole canvas.
pub open spec fn is_target(target: Seq<u8>) -> bool {
    target.len() == RENDER_SIZE * RENDER_SIZE
}

/// Every genotype of the population is well formed.
pub open spec fn genotypes_wf(population: Seq<Individual>) -> bool {
    forall|i: int| 0 <= i < population.len() ==> (#[trigger] population[i]).genotype.wf()
}

/// Every member holds the score of its own genotype against the target.
pub open spec fn all_scored(population: Seq<Individual>, target: Seq<u8>) -> bool {
    forall|i: int|
        0 <= i < population.len() ==> (#[trigger] population[i]).fitness == Some(
            score(population[i].genotype@, target),
        )
}

/// A population of `POPULATION_SIZE` random individuals, none scored yet.
pub fn initial_population(rng: &mut StdRng) -> (population: Vec<Individual>)
    ensures
        population@.len() == POPULATION_SIZE,
        genotypes_wf(population@),
        forall|i: int| 0 <= i < population@.len() ==> (#[trigger] population@[i]).fitness is None,
{
    let mut population: Vec<Individual> = Vec::new();
    let mut i: usize = 0;
    while i < POPULATION_SIZE
        invariant
            i <= POPULATION_SIZE,
            population@.len() == i,
            genotypes_wf(population@),
            forall|k: int| 0 <= k < population@.len() ==> (#[trigger] population@[k]).fitness is None,
        decreases POPULATION_SIZE - i,
    {
        let genotype = Genotype::new_random(rng);
        population.push(Individual::new(genotype));
        i = i + 1;
    }
    population
}

/// Scores one genotype against the target: renders it and measures the
/// error of the picture.
pub fn evaluate(genotype: &Genotype, target: &PixelBuffer) -> (mse: Mse)
    requires
        lines_in_bounds(genotype@),
        is_target(target@),
    ensures
        mse == score(genotype@, target@),
        mse.count > 0,
{
    let phenotype = render_genotype(genotype);
    proof {
        lemma_error_bound(phenotype@, target@);
    }
    calculate_mse(&phenotype, target)
}

/// Scores every member afresh against the target. The genotypes stay as
/// they are.
pub fn evaluate_population(population: &mut Vec<Individual>, target: &PixelBuffer)
    requires
        is_target(target@),
        forall|i: int|
            0 <= i < old(population)@.len() ==> lines_in_bounds(
                (#[trigger] old(population)@[i]).genotype@,
            ),
    ensures
        final(population)@.len() == old(population)@.len(),
        forall|i: int|
            0 <= i < old(population)@.len() ==> (#[trigger] final(population)@[i]).genotype == old(
                population,
            )@[i].genotype,
        all_scored(final(population)@, target@),
{
    let count: usize = population.len();
    let mut i: usize = 0;
    while i < count
        invariant
            i <= count,
            count == old(population)@.len(),
            population@.len() == count,
            is_target(target@),
            forall|k: int|
                0 <= k < count ==> (#[trigger] population@[k]).genotype == old(
                    population,
                )@[k].genotype,
            forall|k: int|
                0 <= k < count ==> lines_in_bounds((#[trigger] old(population)@[k]).genotype@),
            forall|k: int|
                0 <= k < i ==> (#[trigger] population@[k]).fitness == Some(
                    score(population@[k].genotype@, target@),
                ),
        decreases count - i,
    {
        assert(lines_in_bounds(old(population)@[i as int].genotype@));
        let mse = evaluate(&population[i].genotype, target);
        population[i].fitness = Some(mse);
        i = i + 1;
    }
}

/// Whether a report is due after ranking generation `generation`: on every
/// multiple of `OUTPUT_EVERY` and on the last generation.
pub fn report_due(generation: usize) -> (due: bool)
    ensures
        due == (generation % OUTPUT_EVERY == 0 || generation == NUM_GENERATIONS - 1),
{
    generation % OUTPUT_EVERY == 0 || generation == NUM_GENERATIONS - 1
}


/// Every fitness of the population can be ranked.
pub open spec fn all_rankable(population: Seq<Individual>) -> bool {
    forall|i: int| 0 <= i < population.len() ==> rankable((#[trigger] population[i]).fitness)
}

/// The position `k` stands somewhere in `order`.
pub open spec fn names(order: Seq<usize>, k: int) -> bool {
    exists|j: int| 0 <= j < order.len() && #[trigger] order[j] == k
}

/// `order` names each of the first `n` positions exactly once.
pub open spec fn is_permutation(order: Seq<usize>, n: nat) -> bool {
    &&& order.len() == n
    &&& forall|i: int| 0 <= i < order.len() ==> (#[trigger] order[i]) < n
    &&& forall|i: int, j: int|
        0 <= i < j < order.len() ==> (#[trigger] order[i]) != (#[trigger] order[j])
    &&& forall|k: int| 0 <= k < n ==> #[trigger] names(order, k)
}

/// Walking `population` in the order `order` meets errors that never fall,
/// and meets members of equal error in the order they stand in.
pub open spec fn is_stable_ranking(population: Seq<Individual>, order: Seq<usize>) -> bool {
    &&& forall|i: int, j: int|
        0 <= i < j < order.len() ==> !fitter(
            population[(#[trigger] order[j]) as int].fitness,
            population[(#[trigger] order[i]) as int].fitness,
        )
    &&& forall|i: int, j: int|
        0 <= i < j < order.len() && !fitter(
            population[(#[trigger] order[i]) as int].fitness,
            population[(#[trigger] order[j]) as int].fitness,
        ) ==> order[i] < order[j]
}

/// `after` holds the members of `before`, each once, in the order `order`,
/// which ranks them by rising error and keeps ties in place.
pub open spec fn ranked_by(before: Seq<Individual>, after: Seq<Individual>, order: Seq<usize>) -> bool {
    &&& is_permutation(order, before.len())
    &&& is_stable_ranking(before, order)
    &&& after.len() == before.len()
    &&& forall|i: int|
        0 <= i < after.len() ==> (#[trigger] after[i]).genotype@ == before[order[i] as int].genotype@
            && after[i].fitness == before[order[i] as int].fitness
}

/// The positions of the population, ranked by rising error, ties in place.
fn ranking(population: &Vec<Individual>) -> (order: Vec<usize>)
    requires
        all_rankable(population@),
    ensures
        is_permutation(order@, population@.len()),
        is_stable_ranking(population@, order@),
{
    let count: usize = population.len();
    let mut order: Vec<usize> = Vec::new();
    let mut k: usize = 0;
    while k < count
        invariant
            k <= count,
            count == population@.len(),
            all_rankable(population@),
            order@.len() == k,
            forall|i: int| 0 <= i < order@.len() ==> (#[trigger] order@[i]) < k,
            forall|i: int, j: int|
                0 <= i < j < order@.len() ==> (#[trigger] order@[i]) != (#[trigger] order@[j]),
            forall|m: int| 0 <= m < k ==> #[trigger] names(order@, m),
            is_stable_ranking(population@, order@),
        decreases count - k,
    {
        let mut p: usize = k;
        while p > 0 && population[k].is_fitter_than(&population[order[p - 1]])
            invariant
                p <= k,
                k < count,
                count == population@.len(),
                order@.len() == k,
                forall|i: int| 0 <= i < order@.len() ==> (#[trigger] order@[i]) < k,
                forall|j: int|
                    p <= j < k ==> fitter(
                        population@[k as int].fitness,
                        population@[(#[trigger] order@[j]) as int].fitness,
                    ),
            decreases p,
        {
            p = p - 1;
        }
        let ghost before = order@;
        order.insert(p, k);
        proof {
            let after = order@;
            let pop = population@;
            assert(after == before.insert(p as int, k));
            assert forall|i: int, j: int| 0 <= i < j < after.len() implies !fitter(
                pop[(#[trigger] after[j]) as int].fitness,
                pop[(#[trigger] after[i]) as int].fitness,
            ) by {
                if j < p {
                    assert(after[i] == before[i] && after[j] == before[j]);
                } else if j == p {
                    assert(after[i] == before[i]);
                    assert(after[j] == k);
                    // the new member is no better than the one just before it,
                    // which is no better than any before that
                    if i < p - 1 {
                        assert(!fitter(
                            pop[before[p - 1] as int].fitness,
                            pop[before[i] as int].fitness,
                        ));
                    }
                    lemma_not_fitter_transitive(
                        pop[before[i] as int].fitness,
                        pop[before[p - 1] as int].fitness,
                        pop[k as int].fitness,
                    );
                } else if i == p {
                    assert(after[i] == k);
                    assert(after[j] == before[j - 1]);
                    lemma_fitter_asymmetric(pop[k as int].fitness, pop[before[j - 1] as int].fitness);
                } else if i < p {
                    assert(after[i] == before[i] && after[j] == before[j - 1]);
                } else {
                    assert(after[i] == before[i - 1] && after[j] == before[j - 1]);
                }
            }
            assert forall|i: int, j: int|
                0 <= i < j < after.len() && !fitter(
                    pop[(#[trigger] after[i]) as int].fitness,
                    pop[(#[trigger] after[j]) as int].fitness,
                ) implies after[i] < after[j] by {
                if j < p {
                    assert(after[i] == before[i] && after[j] == before[j]);
                } else if j == p {
                    assert(after[i] == before[i]);
                    assert(after[j] == k);
                } else if i == p {
                    assert(after[i] == k);
                    assert(after[j] == before[j - 1]);
                } else if i < p {
                    assert(after[i] == before[i] && after[j] == before[j - 1]);
                } else {
                    assert(after[i] == before[i - 1] && after[j] == before[j - 1]);
                }
            }
            assert forall|m: int| 0 <= m < k + 1 implies #[trigger] names(after, m) by {
                if m == k {
                    assert(after[p as int] == k);
                } else {
                    assert(names(before, m));
                    let j = choose|j: int| 0 <= j < before.len() && #[trigger] before[j] == m;
                    if j < p {
                        assert(after[j] == m);
                    } else {
                        assert(after[j + 1] == m);
                    }
                }
            }
            assert forall|i: int| 0 <= i < after.len() implies (#[trigger] after[i]) < k + 1 by {
                if i < p {
                    assert(after[i] == before[i]);
                } else if i > p {
                    assert(after[i] == before[i - 1]);
                }
            }
            assert forall|i: int, j: int| 0 <= i < j < after.len() implies (#[trigger] after[i]) != (
            #[trigger] after[j]) by {
                if j < p {
                    assert(after[i] == before[i] && after[j] == before[j]);
                } else if j == p {
                    assert(after[i] == before[i]);
                } else if i == p {
                    assert(after[j] == before[j - 1]);
                } else if i < p {
                    assert(after[i] == before[i] && after[j] == before[j - 1]);
                } else {
                    assert(after[i] == before[i - 1] && after[j] == before[j - 1]);
                }
            }
        }
        k = k + 1;
    }
    order
}

/// Ranks the population by rising error. Members of equal error keep the
/// order they stood in, and unscored members go last.
pub fn rank_population(population: &mut Vec<Individual>)
    requires
        all_rankable(old(population)@),
    ensures
        exists|order: Seq<usize>| #[trigger] ranked_by(old(population)@, final(population)@, order),
{
    let order = ranking(population);
    let mut ranked: Vec<Individual> = Vec::new();
    let mut i: usize = 0;
    while i < order.len()
        invariant
            i <= order@.len(),
            is_permutation(order@, population@.len()),
            ranked@.len() == i,
            forall|k: int|
                0 <= k < i ==> (#[trigger] ranked@[k]).genotype@ == population@[order@[k] as int].genotype@
                    && ranked@[k].fitness == population@[order@[k] as int].fitness,
        decreases order.len() - i,
    {
        let at: usize = order[i];
        ranked.push(population[at].duplicate());
        i = i + 1;
    }
    assert(ranked_by(population@, ranked@, order@));
    *population = ranked;
}


/// Number of members carried over unchanged from a population of `n`.
pub open spec fn elite_count(n: nat) -> nat {
    if n < ELITISM_COUNT {
        n
    } else {
        ELITISM_COUNT as nat
    }
}

/// `child` is the crossing at `cut` of the members `a` and `b`, each the
/// winner of a tournament, with each of its lines then kept or mutated.
pub open spec fn bred(population: Seq<Individual>, a: int, b: int, cut: int, child: Seq<Line>) -> bool {
    &&& 0 <= a < population.len()
    &&& 0 <= b < population.len()
    &&& can_win(population, a)
    &&& can_win(population, b)
    &&& 1 <= cut < NUM_LINES
    &&& child.len() == NUM_LINES
    &&& forall|k: int|
        0 <= k < NUM_LINES ==> line_mutated(
            crossed(population[a].genotype@, population[b].genotype@, cut)[k],
            #[trigger] child[k],
        )
}

/// `child` was bred from two tournament winners of the population, which
/// may be one and the same.
pub open spec fn is_offspring(population: Seq<Individual>, child: Seq<Line>) -> bool {
    exists|a: int, b: int, cut: int| #[trigger] bred(population, a, b, cut, child)
}

/// `next` follows `population`: it has `POPULATION_SIZE` members, the first
/// of which are the first members of `population` with their fitness, and
/// the others unscored offspring of `population`.
pub open spec fn succeeds(population: Seq<Individual>, next: Seq<Individual>) -> bool {
    &&& next.len() == POPULATION_SIZE
    &&& forall|i: int|
        0 <= i < elite_count(population.len()) ==> (#[trigger] next[i]).genotype@
            == population[i].genotype@ && next[i].fitness == population[i].fitness
    &&& forall|i: int|
        elite_count(population.len()) <= i < POPULATION_SIZE ==> (#[trigger] next[i]).fitness is None
            && is_offspring(population, next[i].genotype@)
}

/// Breeds the next population from a ranked one. The best `ELITISM_COUNT`
/// members are carried over unchanged; every other place is filled with a
/// child of two tournament winners, crossed and then mutated.
pub fn next_population(population: &Vec<Individual>, rng: &mut StdRng) -> (next: Vec<Individual>)
    requires
        population@.len() > 0,
        forall|i: int|
            0 <= i < population@.len() ==> (#[trigger] population@[i]).genotype@.len() == NUM_LINES,
    ensures
        succeeds(population@, next@),
        genotypes_wf(population@) ==> genotypes_wf(next@),
{
    let mut next: Vec<Individual> = Vec::new();
    let mut i: usize = 0;
    while i < ELITISM_COUNT && i < population.len()
        invariant
            i <= elite_count(population@.len()),
            next@.len() == i,
            forall|k: int|
                0 <= k < i ==> (#[trigger] next@[k]).genotype@ == population@[k].genotype@
                    && next@[k].fitness == population@[k].fitness,
        decreases ELITISM_COUNT - i,
    {
        next.push(population[i].duplicate());
        i = i + 1;
    }
    let ghost elite = elite_count(population@.len());
    assert(i == elite);
    while next.len() < POPULATION_SIZE
        invariant
            population@.len() > 0,
            forall|k: int|
                0 <= k < population@.len() ==> (#[trigger] population@[k]).genotype@.len()
                    == NUM_LINES,
            elite == elite_count(population@.len()),
            elite <= next@.len() <= POPULATION_SIZE,
            forall|k: int|
                0 <= k < elite ==> (#[trigger] next@[k]).genotype@ == population@[k].genotype@
                    && next@[k].fitness == population@[k].fitness,
            forall|k: int|
                elite <= k < next@.len() ==> (#[trigger] next@[k]).fitness is None && is_offspring(
                    population@,
                    next@[k].genotype@,
                ),
            forall|k: int|
                elite <= k < next@.len() && genotypes_wf(population@) ==> lines_in_bounds(
                    (#[trigger] next@[k]).genotype@,
                ),
        decreases POPULATION_SIZE - next@.len(),
    {
        let parent1 = tournament_selection(population.as_slice(), rng);
        let parent2 = tournament_selection(population.as_slice(), rng);
        let ghost a = choose|a: int|
            0 <= a < population@.len() && can_win(population@, a) && *parent1
                == #[trigger] population@[a];
        let ghost b = choose|b: int|
            0 <= b < population@.len() && can_win(population@, b) && *parent2
                == #[trigger] population@[b];
        let mut child = crossover(&parent1.genotype, &parent2.genotype, rng);
        let ghost cut = choose|cut: int|
            1 <= cut < NUM_LINES && child@ == #[trigger] crossed(
                parent1.genotype@,
                parent2.genotype@,
                cut,
            );
        let ghost unmutated = child@;
        mutate(&mut child, rng);
        proof {
            assert(bred(population@, a, b, cut, child@)) by {
                assert forall|k: int| 0 <= k < NUM_LINES implies line_mutated(
                    crossed(population@[a].genotype@, population@[b].genotype@, cut)[k],
                    #[trigger] child@[k],
                ) by {
                    assert(line_mutated(unmutated[k], child@[k]));
                }
            }
            if genotypes_wf(population@) {
                assert(population@[a].genotype.wf());
                assert(population@[b].genotype.wf());
                assert(lines_in_bounds(child@));
            }
        }
        let ghost before = next@;
        next.push(Individual::new(child));
        proof {
            assert forall|k: int| 0 <= k < elite implies (#[trigger] next@[k]).genotype@
                == population@[k].genotype@ && next@[k].fitness == population@[k].fitness by {
                assert(next@[k] == before[k]);
            }
            assert forall|k: int| elite <= k < next@.len() implies (#[trigger] next@[k]).fitness is None
                && is_offspring(population@, next@[k].genotype@) by {
                if k < before.len() {
                    assert(next@[k] == before[k]);
                }
            }
            assert forall|k: int|
                elite <= k < next@.len() && genotypes_wf(population@) implies lines_in_bounds(
                (#[trigger] next@[k]).genotype@,
            ) by {
                if k < before.len() {
                    assert(next@[k] == before[k]);
                }
            }
        }
    }
    proof {
        assert(succeeds(population@, next@));
        if genotypes_wf(population@) {
            assert forall|k: int| 0 <= k < next@.len() implies (#[trigger] next@[k]).genotype.wf() by {
                if k < elite {
                    assert(population@[k].genotype.wf());
                }
            }
        }
    }
    next
}


/// The lines are those of a member whose picture no member's picture beats
/// against the target.
pub open spec fn is_champion(population: Seq<Individual>, target: Seq<u8>, lines: Seq<Line>) -> bool {
    &&& exists|k: int| 0 <= k < population.len() && (#[trigger] population[k]).genotype@ == lines
    &&& forall|j: int|
        0 <= j < population.len() ==> !fitter(
            Some(score((#[trigger] population[j]).genotype@, target)),
            Some(score(lines, target)),
        )
}

/// One generation leads from `start` to `next`: `scored` holds the members
/// of `start` with their scores against the target, `ranked` holds those in
/// the stable ranking `order`, and `next` follows `ranked`.
pub open spec fn generation_step(
    start: Seq<Individual>,
    target: Seq<u8>,
    scored: Seq<Individual>,
    ranked: Seq<Individual>,
    order: Seq<usize>,
    next: Seq<Individual>,
) -> bool {
    &&& scored.len() == start.len()
    &&& forall|i: int| 0 <= i < start.len() ==> (#[trigger] scored[i]).genotype == start[i].genotype
    &&& all_scored(scored, target)
    &&& ranked_by(scored, ranked, order)
    &&& succeeds(ranked, next)
}

/// What is handed out for display after a generation was ranked.
#[derive(Clone, Debug, PartialEq, Eq)]
pub struct Report {
    /// Number of the generation, counted from 0.
    pub generation: usize,
    /// Error of the best member of that generation.
    pub best_fitness: Mse,
    /// Picture of the best member of that generation.
    pub phenotype: PixelBuffer,
}

/// One generation: scores every member against the target, ranks the
/// population, and replaces it by the next one. The best member is carried
/// over with its score. Where a report is due, it holds the best member's
/// error and picture.
pub fn step_generation(
    population: &mut Vec<Individual>,
    target: &PixelBuffer,
    generation: usize,
    rng: &mut StdRng,
) -> (report: Option<Report>)
    requires
        old(population)@.len() > 0,
        genotypes_wf(old(population)@),
        is_target(target@),
    ensures
        exists|scored: Seq<Individual>, ranked: Seq<Individual>, order: Seq<usize>| #[trigger]
            generation_step(
                old(population)@,
                target@,
                scored,
                ranked,
                order,
                final(population)@,
            ),
        final(population)@.len() == POPULATION_SIZE,
        genotypes_wf(final(population)@),
        is_champion(old(population)@, target@, final(population)@[0].genotype@),
        final(population)@[0].fitness == Some(score(final(population)@[0].genotype@, target@)),
        report is Some <==> (generation % OUTPUT_EVERY == 0 || generation == NUM_GENERATIONS - 1),
        report matches Some(r) ==> r.generation == generation && r.best_fitness == score(
            final(population)@[0].genotype@,
            target@,
        ) && r.phenotype@ == rendered(final(population)@[0].genotype@, RENDER_SIZE as int),
{
    let ghost start = population@;
    evaluate_population(population, target);
    let ghost scored = population@;
    assert(all_rankable(scored)) by {
        assert forall|i: int| 0 <= i < scored.len() implies rankable((#[trigger] scored[i]).fitness) by {
            assert(scored[i].fitness == Some(score(scored[i].genotype@, target@)));
        }
    }
    rank_population(population);
    let ghost ranked = population@;
    let ghost order = choose|order: Seq<usize>| #[trigger] ranked_by(scored, ranked, order);
    proof {
        let best = ranked[0].genotype@;
        assert(ranked[0].genotype@ == scored[order[0] as int].genotype@);
        assert(scored[order[0] as int].genotype == start[order[0] as int].genotype);
        assert(ranked[0].fitness == Some(score(best, target@)));
        assert forall|j: int| 0 <= j < start.len() implies !fitter(
            Some(score((#[trigger] start[j]).genotype@, target@)),
            Some(score(best, target@)),
        ) by {
            assert(names(order, j));
            let at = choose|at: int| 0 <= at < order.len() && #[trigger] order[at] == j;
            assert(scored[j].genotype == start[j].genotype);
            assert(scored[j].fitness == Some(score(scored[j].genotype@, target@)));
            if at > 0 {
                assert(!fitter(
                    scored[order[at] as int].fitness,
                    scored[order[0] as int].fitness,
                ));
            }
        }
        assert forall|i: int| 0 <= i < ranked.len() implies (#[trigger] ranked[i]).genotype.wf() by {
            assert(scored[order[i] as int].genotype == start[order[i] as int].genotype);
            assert(start[order[i] as int].genotype.wf());
        }
    }
    let report = if report_due(generation) {
        match population[0].fitness {
            Some(best_fitness) => Some(
                Report {
                    generation,
                    best_fitness,
                    phenotype: render_genotype(&population[0].genotype),
                },
            ),
            None => None,
        }
    } else {
        None
    };
    let next = next_population(population, rng);
    *population = next;
    assert(generation_step(start, target@, scored, ranked, order, population@));
    report
}

/// Elitism never lets the best error rise. A step leaves the champion of
/// the population it was given in first place; so where `after` comes from
/// `before` by one step, the member first in `after` is no worse than the
/// member first in `before`.
pub proof fn lemma_best_error_never_rises(
    before: Seq<Individual>,
    after: Seq<Individual>,
    target: Seq<u8>,
)
    requires
        before.len() > 0,
        is_champion(before, target, after[0].genotype@),
    ensures
        !fitter(
            Some(score(before[0].genotype@, target)),
            Some(score(after[0].genotype@, target)),
        ),
{
}

} // verus!
