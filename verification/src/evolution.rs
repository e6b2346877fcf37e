//! The evolutionary operators: tournament selection, single-point crossover
//! and point mutation.

use vstd::prelude::*;
use rand::rngs::StdRng;
use crate::constants::{MAX_COORD, MUTATION_AMOUNT, MUTATION_RATE_DENOMINATOR,
    MUTATION_RATE_NUMERATOR, NUM_LINES, POINT_MUTATION_RATE_DENOMINATOR,
    POINT_MUTATION_RATE_NUMERATOR, TOURNAMENT_SIZE};
use crate::genotype::{Genotype, Individual, Line, Point, fitter, lines_in_bounds, rankable,
    lemma_fitter_asymmetric, lemma_fitter_irreflexive, lemma_fitter_negatively_transitive};
use crate::random::{random_i32, random_ratio, random_usize};

verus! {

/// Every draw names a member of a population of `n`.
pub open spec fn valid_draws(draws: Seq<usize>, n: nat) -> bool {
    forall|i: int| 0 <= i < draws.len() ==> (#[trigger] draws[i]) < n
}

/// The member that wins a tournament among the drawn ones: the first drawn
/// with the lowest error. A later draw replaces the winner so far only when
/// it is strictly better.
pub open spec fn tournament_pick(population: Seq<Individual>, draws: Seq<usize>) -> usize
    decreases draws.len(),
{
    if draws.len() <= 1 {
        draws[0]
    } else {
        let best = tournament_pick(population, draws.drop_last());
        let challenger = draws.last();
        if fitter(population[challenger as int].fitness, population[best as int].fitness) {
            challenger
        } else {
            best
        }
    }
}

/// The member at `winner` can win a tournament: it is the pick of some
/// `TOURNAMENT_SIZE` draws from the population.
pub open spec fn can_win(population: Seq<Individual>, winner: int) -> bool {
    exists|draws: Seq<usize>|
        draws.len() == TOURNAMENT_SIZE && valid_draws(draws, population.len())
            && #[trigger] tournament_pick(population, draws) == winner
}

/// The winner of a tournament is one of the drawn members.
pub proof fn lemma_pick_is_drawn(population: Seq<Individual>, draws: Seq<usize>)
    requires
        draws.len() > 0,
    ensures
        exists|i: int| 0 <= i < draws.len() && draws[i] == tournament_pick(population, draws),
    decreases draws.len(),
{
    if draws.len() <= 1 {
        assert(draws[0] == tournament_pick(population, draws));
    } else {
        lemma_pick_is_drawn(population, draws.drop_last());
        let i = choose|i: int|
            0 <= i < draws.drop_last().len() && draws.drop_last()[i] == tournament_pick(
                population,
                draws.drop_last(),
            );
        assert(draws[i] == draws.drop_last()[i]);
        if tournament_pick(population, draws) == draws.last() {
            assert(draws[draws.len() - 1] == tournament_pick(population, draws));
        }
    }
}

/// No drawn member is strictly better than the winner of a tournament, as
/// long as the better-than relation is transitive among the drawn members.
/// It is whenever their fitness can be ranked.
pub proof fn lemma_pick_is_best(population: Seq<Individual>, draws: Seq<usize>, i: int)
    requires
        0 <= i < draws.len(),
        valid_draws(draws, population.len()),
        forall|k: int| 0 <= k < population.len() ==> rankable(
            (#[trigger] population[k]).fitness,
        ),
    ensures
        !fitter(
            population[draws[i] as int].fitness,
            population[tournament_pick(population, draws) as int].fitness,
        ),
    decreases draws.len(),
{
    let win = tournament_pick(population, draws);
    if draws.len() <= 1 {
        lemma_fitter_irreflexive(population[draws[0] as int].fitness);
    } else {
        let rest = draws.drop_last();
        let best = tournament_pick(population, rest);
        let challenger = draws.last();
        lemma_pick_is_drawn(population, rest);
        lemma_pick_is_drawn(population, draws);
        assert(valid_draws(rest, population.len())) by {
            assert forall|k: int| 0 <= k < rest.len() implies (#[trigger] rest[k])
                < population.len() by {
                assert(rest[k] == draws[k]);
            }
        }
        if i < draws.len() - 1 {
            lemma_pick_is_best(population, rest, i);
            assert(rest[i] == draws[i]);
            if win != best {
                // the challenger beat the best so far, and with it all that the best was
                // not beaten by
                lemma_fitter_negatively_transitive(
                    population[draws[i] as int].fitness,
                    population[best as int].fitness,
                    population[challenger as int].fitness,
                );
                lemma_fitter_asymmetric(
                    population[challenger as int].fitness,
                    population[best as int].fitness,
                );
            }
        } else {
            if win == challenger {
                lemma_fitter_irreflexive(population[challenger as int].fitness);
            }
        }
    }
}

/// The winner of a tournament among the members named by `draws`: the first
/// drawn with the lowest error.
pub fn tournament_winner(population: &[Individual], draws: &Vec<usize>) -> (winner: usize)
    requires
        draws@.len() > 0,
        valid_draws(draws@, population@.len()),
    ensures
        winner == tournament_pick(population@, draws@),
        winner < population@.len(),
{
    let mut best: usize = draws[0];
    assert(draws@.subrange(0, 1).len() == 1);
    assert(draws@.subrange(0, 1)[0] == draws@[0]);
    let mut i: usize = 1;
    while i < draws.len()
        invariant
            1 <= i <= draws@.len(),
            valid_draws(draws@, population@.len()),
            best == tournament_pick(population@, draws@.subrange(0, i as int)),
            best < population@.len(),
        decreases draws.len() - i,
    {
        let challenger: usize = draws[i];
        proof {
            let prefix = draws@.subrange(0, i as int + 1);
            assert(prefix.drop_last() == draws@.subrange(0, i as int));
            assert(prefix.last() == challenger);
        }
        if population[challenger].is_fitter_than(&population[best]) {
            best = challenger;
        }
        i = i + 1;
    }
    assert(draws@.subrange(0, i as int) == draws@);
    best
}

/// Draws `TOURNAMENT_SIZE` members of the population, each uniformly and
/// independently of the others, and returns the winner among them. The
/// population is not changed.
pub fn tournament_selection<'a>(population: &'a [Individual], rng: &mut StdRng) -> (winner:
    &'a Individual)
    requires
        population@.len() > 0,
    ensures
        exists|i: int|
            0 <= i < population@.len() && can_win(population@, i) && *winner
                == #[trigger] population@[i],
{
    let mut draws: Vec<usize> = Vec::new();
    let mut i: usize = 0;
    while i < TOURNAMENT_SIZE
        invariant
            i <= TOURNAMENT_SIZE,
            population@.len() > 0,
            draws@.len() == i,
            valid_draws(draws@, population@.len()),
        decreases TOURNAMENT_SIZE - i,
    {
        let drawn: usize = random_usize(rng, 0, population.len());
        draws.push(drawn);
        i = i + 1;
    }
    let winner: usize = tournament_winner(population, &draws);
    assert(can_win(population@, winner as int)) by {
        assert(tournament_pick(population@, draws@) == winner);
    }
    assert(population[winner as int] == population@[winner as int]);
    &population[winner]
}

/// The genes of `a` before the cut, then the genes of `b` from the cut on.
pub open spec fn crossed(a: Seq<Line>, b: Seq<Line>, cut: int) -> Seq<Line> {
    a.subrange(0, cut) + b.subrange(cut, b.len() as int)
}

/// A crossing of two genotypes of one length has that length, its genes
/// before the cut are the first parent's, and those from the cut on the
/// second parent's, each at its own position.
pub proof fn lemma_crossed_genes(a: Seq<Line>, b: Seq<Line>, cut: int)
    requires
        a.len() == b.len(),
        0 <= cut <= a.len(),
    ensures
        crossed(a, b, cut).len() == a.len(),
        forall|i: int| 0 <= i < cut ==> crossed(a, b, cut)[i] == a[i],
        forall|i: int| cut <= i < a.len() ==> crossed(a, b, cut)[i] == b[i],
{
}

/// The child of two parents cut at `cut`: the first parent's lines before
/// the cut, then the second parent's lines from the cut on.
pub fn crossover_at(parent1: &Genotype, parent2: &Genotype, cut: usize) -> (child: Genotype)
    requires
        parent1@.len() == NUM_LINES,
        parent2@.len() == NUM_LINES,
        cut <= NUM_LINES,
    ensures
        child@ == crossed(parent1@, parent2@, cut as int),
        child@.len() == NUM_LINES,
        lines_in_bounds(parent1@) && lines_in_bounds(parent2@) ==> lines_in_bounds(child@),
{
    let mut lines: Vec<Line> = Vec::new();
    let mut i: usize = 0;
    while i < NUM_LINES
        invariant
            i <= NUM_LINES,
            parent1@.len() == NUM_LINES,
            parent2@.len() == NUM_LINES,
            cut <= NUM_LINES,
            lines@.len() == i,
            forall|k: int| 0 <= k < i ==> lines@[k] == crossed(parent1@, parent2@, cut as int)[k],
        decreases NUM_LINES - i,
    {
        let line = if i < cut { parent1.lines[i] } else { parent2.lines[i] };
        lines.push(line);
        i = i + 1;
    }
    let child = Genotype { lines };
    assert(child@ =~= crossed(parent1@, parent2@, cut as int));
    child
}

/// The child of two parents cut at a point drawn uniformly from
/// `[1, NUM_LINES - 1]`, so that each parent gives at least one line.
pub fn crossover(parent1: &Genotype, parent2: &Genotype, rng: &mut StdRng) -> (child: Genotype)
    requires
        parent1@.len() == NUM_LINES,
        parent2@.len() == NUM_LINES,
    ensures
        exists|cut: int|
            1 <= cut < NUM_LINES && child@ == #[trigger] crossed(parent1@, parent2@, cut),
        child@.len() == NUM_LINES,
        lines_in_bounds(parent1@) && lines_in_bounds(parent2@) ==> lines_in_bounds(child@),
{
    let cut: usize = random_usize(rng, 1, NUM_LINES);
    crossover_at(parent1, parent2, cut)
}

/// `v` brought into `[0, MAX_COORD]`.
pub open spec fn clamp_coord(v: int) -> int {
    if v < 0 {
        0
    } else if v > MAX_COORD {
        MAX_COORD as int
    } else {
        v
    }
}

/// `new` is `old` moved by some offset of `[-MUTATION_AMOUNT, MUTATION_AMOUNT)`
/// and then clamped: it lies between the two clamped extremes.
pub open spec fn coord_perturbed(old: int, new: int) -> bool {
    clamp_coord(old - MUTATION_AMOUNT) <= new <= clamp_coord(old + MUTATION_AMOUNT - 1)
}

/// Both coordinates of the point were perturbed.
pub open spec fn point_perturbed(old: Point, new: Point) -> bool {
    coord_perturbed(old.x as int, new.x as int) && coord_perturbed(old.y as int, new.y as int)
}

/// Each end of the line was either kept or perturbed in both coordinates.
pub open spec fn line_mutated(old: Line, new: Line) -> bool {
    (new.start == old.start || point_perturbed(old.start, new.start)) && (new.end == old.end
        || point_perturbed(old.end, new.end))
}

/// A perturbed coordinate is the clamped sum of the old one and an offset of
/// the allowed range, and the other way round.
pub proof fn lemma_coord_perturbed(old: int, new: int)
    ensures
        coord_perturbed(old, new) <==> exists|offset: int|
            -MUTATION_AMOUNT <= offset < MUTATION_AMOUNT && new == #[trigger] perturbed_by(
                old,
                offset,
            ),
{
    if coord_perturbed(old, new) {
        let offset = if new == 0 && old - MUTATION_AMOUNT < 0 {
            -(MUTATION_AMOUNT as int)
        } else if new == MAX_COORD && old + MUTATION_AMOUNT - 1 > MAX_COORD {
            MUTATION_AMOUNT as int - 1
        } else {
            new - old
        };
        assert(new == perturbed_by(old, offset));
    }
}

/// `old` moved by `offset` and clamped.
pub open spec fn perturbed_by(old: int, offset: int) -> int {
    clamp_coord(old + offset)
}

/// A perturbed point lies in bounds, wherever it was before.
pub proof fn lemma_perturbed_point_in_bounds(old: Point, new: Point)
    requires
        point_perturbed(old, new),
    ensures
        new.in_bounds(),
{
}

/// A mutated line of a genotype in bounds is in bounds.
pub proof fn lemma_mutated_line_in_bounds(old: Line, new: Line)
    requires
        old.in_bounds(),
        line_mutated(old, new),
    ensures
        new.in_bounds(),
{
}

/// The coordinate `v` moved by `offset` and clamped into `[0, MAX_COORD]`,
/// whatever the two are.
pub fn perturb_coord(v: i32, offset: i32) -> (r: i32)
    ensures
        r == clamp_coord(v as int + offset as int),
        0 <= r <= MAX_COORD,
{
    let moved: i64 = v as i64 + offset as i64;
    if moved < 0 {
        0
    } else if moved > MAX_COORD as i64 {
        MAX_COORD
    } else {
        moved as i32
    }
}

/// The point moved by `dx` and `dy`, each coordinate clamped on its own.
pub fn perturb_point(p: Point, dx: i32, dy: i32) -> (r: Point)
    ensures
        r.x == clamp_coord(p.x as int + dx as int),
        r.y == clamp_coord(p.y as int + dy as int),
        r.in_bounds(),
{
    Point::new(perturb_coord(p.x, dx), perturb_coord(p.y, dy))
}

/// The line with each end moved by its pair of offsets, where it has one,
/// and kept where it has none.
pub open spec fn line_moved(line: Line, start: Option<(i32, i32)>, end: Option<(i32, i32)>) -> Line {
    Line {
        start: match start {
            Some((dx, dy)) => Point {
                x: clamp_coord(line.start.x as int + dx as int) as i32,
                y: clamp_coord(line.start.y as int + dy as int) as i32,
            },
            None => line.start,
        },
        end: match end {
            Some((dx, dy)) => Point {
                x: clamp_coord(line.end.x as int + dx as int) as i32,
                y: clamp_coord(line.end.y as int + dy as int) as i32,
            },
            None => line.end,
        },
    }
}

/// Whether both offsets lie in `[-MUTATION_AMOUNT, MUTATION_AMOUNT)`.
pub open spec fn offsets_allowed(offsets: Option<(i32, i32)>) -> bool {
    match offsets {
        Some((dx, dy)) => -MUTATION_AMOUNT <= dx < MUTATION_AMOUNT && -MUTATION_AMOUNT <= dy
            < MUTATION_AMOUNT,
        None => true,
    }
}

/// A line moved by allowed offsets is a mutation of the line.
pub proof fn lemma_moved_line_is_mutated(line: Line, start: Option<(i32, i32)>, end: Option<(i32, i32)>)
    requires
        offsets_allowed(start),
        offsets_allowed(end),
    ensures
        line_mutated(line, line_moved(line, start, end)),
{
}

/// The line with each end moved by its pair of offsets, where it has one,
/// each coordinate clamped on its own; an end without offsets is kept.
pub fn mutate_line(line: Line, start: Option<(i32, i32)>, end: Option<(i32, i32)>) -> (moved: Line)
    ensures
        moved == line_moved(line, start, end),
{
    let new_start = match start {
        Some((dx, dy)) => perturb_point(line.start, dx, dy),
        None => line.start,
    };
    let new_end = match end {
        Some((dx, dy)) => perturb_point(line.end, dx, dy),
        None => line.end,
    };
    Line::new(new_start, new_end)
}

/// The offsets for one end of a candidate line: where the end is to be
/// perturbed, one for each coordinate, drawn on its own; where not, none.
fn draw_offsets(rng: &mut StdRng, perturb: bool) -> (offsets: Option<(i32, i32)>)
    ensures
        offsets is Some <==> perturb,
        offsets_allowed(offsets),
{
    if perturb {
        let dx: i32 = random_i32(rng, -MUTATION_AMOUNT, MUTATION_AMOUNT);
        let dy: i32 = random_i32(rng, -MUTATION_AMOUNT, MUTATION_AMOUNT);
        Some((dx, dy))
    } else {
        None
    }
}

/// Mutates a genotype in place, line by line. A line is a candidate with the
/// mutation rate; each end of a candidate is perturbed with the point mutation
/// rate, independently of the other end. Perturbing an end moves each of its
/// coordinates by its own offset of the allowed range and clamps it into bounds.
pub fn mutate(genotype: &mut Genotype, rng: &mut StdRng)
    ensures
        final(genotype)@.len() == old(genotype)@.len(),
        forall|i: int|
            0 <= i < old(genotype)@.len() ==> line_mutated(
                old(genotype)@[i],
                #[trigger] final(genotype)@[i],
            ),
        lines_in_bounds(old(genotype)@) ==> lines_in_bounds(final(genotype)@),
{
    let count: usize = genotype.lines.len();
    let mut i: usize = 0;
    while i < count
        invariant
            i <= count,
            count == old(genotype)@.len(),
            genotype@.len() == count,
            forall|k: int|
                0 <= k < i ==> line_mutated(old(genotype)@[k], #[trigger] genotype@[k]),
            forall|k: int| i <= k < count ==> #[trigger] genotype@[k] == old(genotype)@[k],
        decreases count - i,
    {
        if random_ratio(rng, MUTATION_RATE_NUMERATOR, MUTATION_RATE_DENOMINATOR) {
            let line: Line = genotype.lines[i];
            let perturb_start: bool = random_ratio(
                rng,
                POINT_MUTATION_RATE_NUMERATOR,
                POINT_MUTATION_RATE_DENOMINATOR,
            );
            let start = draw_offsets(rng, perturb_start);
            let perturb_end: bool = random_ratio(
                rng,
                POINT_MUTATION_RATE_NUMERATOR,
                POINT_MUTATION_RATE_DENOMINATOR,
            );
            let end = draw_offsets(rng, perturb_end);
            proof {
                lemma_moved_line_is_mutated(line, start, end);
            }
            genotype.lines.set(i, mutate_line(line, start, end));
        }
        i = i + 1;
    }
    proof {
        if lines_in_bounds(old(genotype)@) {
            assert forall|k: int| 0 <= k < genotype@.len() implies (#[trigger] genotype@[k]).in_bounds() by {
                lemma_mutated_line_in_bounds(old(genotype)@[k], genotype@[k]);
            }
        }
    }
}

} // verus!
