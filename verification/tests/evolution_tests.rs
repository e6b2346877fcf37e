use glyph_evolution::constants::{MAX_COORD, MUTATION_AMOUNT, NUM_LINES, TOURNAMENT_SIZE};
use glyph_evolution::evolution::{
    crossover, crossover_at, mutate, mutate_line, perturb_coord, perturb_point,
    tournament_selection,
    tournament_winner,
};
use glyph_evolution::fitness::Mse;
use glyph_evolution::genotype::{Genotype, Individual, Line, Point};
use rand::rngs::StdRng;
use rand::SeedableRng;

fn flat_genotype(value: i32) -> Genotype {
    Genotype {
        lines: (0..NUM_LINES as i32)
            .map(|i| Line::new(Point::new(value, i), Point::new(i, value)))
            .collect(),
    }
}

fn member(tag: i32, sum: Option<u64>) -> Individual {
    let mut individual = Individual::new(flat_genotype(tag));
    individual.fitness = sum.map(|s| Mse { sum: s, count: 4096 });
    individual
}

#[test]
fn random_point_is_in_bounds() {
    let mut rng = StdRng::seed_from_u64(1);
    for _ in 0..2000 {
        let p = Point::random(&mut rng);
        assert!(0 <= p.x && p.x <= MAX_COORD);
        assert!(0 <= p.y && p.y <= MAX_COORD);
    }
}

#[test]
fn random_points_differ_and_reach_both_ends() {
    let mut rng = StdRng::seed_from_u64(2);
    let points: Vec<Point> = (0..20000).map(|_| Point::random(&mut rng)).collect();
    assert!(points.iter().any(|p| p.x != points[0].x));
    assert!(points.iter().any(|p| p.x == 0));
    assert!(points.iter().any(|p| p.x == MAX_COORD));
    assert!(points.iter().any(|p| p.y == 0));
    assert!(points.iter().any(|p| p.y == MAX_COORD));
}

#[test]
fn random_line_is_in_bounds() {
    let mut rng = StdRng::seed_from_u64(3);
    for _ in 0..500 {
        let l = Line::random(&mut rng);
        for v in [l.start.x, l.start.y, l.end.x, l.end.y] {
            assert!(0 <= v && v <= MAX_COORD);
        }
    }
}

#[test]
fn random_genotype_has_the_fixed_number_of_lines() {
    let mut rng = StdRng::seed_from_u64(4);
    let g = Genotype::new_random(&mut rng);
    assert_eq!(g.lines.len(), NUM_LINES);
    assert_eq!(NUM_LINES, 30);
    assert!(g.lines.iter().any(|l| *l != g.lines[0]));
    let copy = g.duplicate();
    assert_eq!(copy, g);
}

#[test]
fn point_and_line_hold_what_they_are_given() {
    let p = Point::new(3, 4);
    assert_eq!((p.x, p.y), (3, 4));
    let l = Line::new(p, Point::new(5, 6));
    assert_eq!(l.start, p);
    assert_eq!(l.end, Point { x: 5, y: 6 });
}

#[test]
fn crossover_at_takes_a_prefix_and_a_suffix() {
    let a = flat_genotype(1);
    let b = flat_genotype(2);
    for cut in 0..=NUM_LINES {
        let child = crossover_at(&a, &b, cut);
        assert_eq!(child.lines.len(), NUM_LINES);
        assert_eq!(&child.lines[..cut], &a.lines[..cut]);
        assert_eq!(&child.lines[cut..], &b.lines[cut..]);
    }
}

#[test]
fn crossover_cuts_strictly_inside() {
    let a = flat_genotype(1);
    let b = flat_genotype(2);
    let mut rng = StdRng::seed_from_u64(5);
    let mut cuts_seen = std::collections::BTreeSet::new();
    for _ in 0..2000 {
        let child = crossover(&a, &b, &mut rng);
        assert_eq!(child.lines.len(), NUM_LINES);
        let cut = child.lines.iter().position(|l| l.start.x == 2).unwrap();
        assert!(1 <= cut && cut <= NUM_LINES - 1);
        assert_eq!(&child.lines[..cut], &a.lines[..cut]);
        assert_eq!(&child.lines[cut..], &b.lines[cut..]);
        cuts_seen.insert(cut);
    }
    assert_eq!(cuts_seen.len(), NUM_LINES - 1);
}

#[test]
fn crossover_of_a_parent_with_itself_is_that_parent() {
    let a = flat_genotype(7);
    let mut rng = StdRng::seed_from_u64(6);
    assert_eq!(crossover(&a, &a, &mut rng), a);
}

#[test]
fn perturbed_coordinate_is_clamped() {
    assert_eq!(perturb_coord(500, 10), 510);
    assert_eq!(perturb_coord(500, -50), 450);
    assert_eq!(perturb_coord(0, -49), 0);
    assert_eq!(perturb_coord(20, -50), 0);
    assert_eq!(perturb_coord(1000, 49), 1000);
    assert_eq!(perturb_coord(999, 1), 1000);
    assert_eq!(perturb_coord(i32::MAX, i32::MAX), 1000);
    assert_eq!(perturb_coord(i32::MIN, i32::MIN), 0);
    assert_eq!(perturb_coord(-5, 10), 5);
}

#[test]
fn perturbed_point_clamps_each_coordinate() {
    let p = perturb_point(Point::new(10, 990), -30, 30);
    assert_eq!(p, Point::new(0, 1000));
    let q = perturb_point(Point::new(10, 990), 5, -5);
    assert_eq!(q, Point::new(15, 985));
}

#[test]
fn mutated_line_moves_the_ends_that_have_offsets() {
    let l = Line::new(Point::new(10, 990), Point::new(500, 500));
    assert_eq!(mutate_line(l, None, None), l);
    assert_eq!(
        mutate_line(l, Some((-30, 30)), None),
        Line::new(Point::new(0, 1000), Point::new(500, 500))
    );
    assert_eq!(
        mutate_line(l, None, Some((49, -50))),
        Line::new(Point::new(10, 990), Point::new(549, 450))
    );
    assert_eq!(
        mutate_line(l, Some((1, 2)), Some((3, 4))),
        Line::new(Point::new(11, 992), Point::new(503, 504))
    );
}

#[test]
fn mutation_stays_in_bounds_and_near() {
    let mut rng = StdRng::seed_from_u64(7);
    let mut changed = 0;
    let mut kept = 0;
    let mut lowest = 0;
    let mut highest = 0;
    for round in 0..400 {
        let before = if round % 2 == 0 { flat_genotype(0) } else { flat_genotype(1000) };
        let mut after = before.duplicate();
        mutate(&mut after, &mut rng);
        assert_eq!(after.lines.len(), before.lines.len());
        for (old, new) in before.lines.iter().zip(after.lines.iter()) {
            for (o, n) in [(old.start, new.start), (old.end, new.end)] {
                for (a, b) in [(o.x, n.x), (o.y, n.y)] {
                    assert!(0 <= b && b <= MAX_COORD);
                    assert!(-MUTATION_AMOUNT <= b - a && b - a < MUTATION_AMOUNT);
                    lowest = lowest.min(b - a);
                    highest = highest.max(b - a);
                }
            }
            if old == new {
                kept += 1;
            } else {
                changed += 1;
            }
        }
    }
    // about one line in ten is a candidate, and three candidates in four change
    assert!(changed > 400 && changed < 1500);
    assert!(kept > 10000);
    assert!(lowest < -40 && highest > 40);
}

#[test]
fn mutation_of_an_empty_genotype() {
    let mut rng = StdRng::seed_from_u64(8);
    let mut g = Genotype { lines: Vec::new() };
    mutate(&mut g, &mut rng);
    assert!(g.lines.is_empty());
}

#[test]
fn tournament_winner_is_the_first_of_the_best_drawn() {
    let population = vec![
        member(0, Some(50)),
        member(1, Some(20)),
        member(2, Some(20)),
        member(3, None),
        member(4, Some(10)),
    ];
    assert_eq!(tournament_winner(&population, &vec![0]), 0);
    assert_eq!(tournament_winner(&population, &vec![3, 0, 3]), 0);
    assert_eq!(tournament_winner(&population, &vec![0, 2, 1, 3, 2]), 2);
    assert_eq!(tournament_winner(&population, &vec![0, 1, 2, 3, 1]), 1);
    assert_eq!(tournament_winner(&population, &vec![3, 3, 3]), 3);
    assert_eq!(tournament_winner(&population, &vec![1, 4, 4, 0, 2]), 4);
}

#[test]
fn tournament_selection_returns_a_member() {
    let population: Vec<Individual> =
        (0..10).map(|i| member(i, Some(100 - i as u64))).collect();
    let mut rng = StdRng::seed_from_u64(9);
    let mut winners = std::collections::BTreeSet::new();
    for _ in 0..500 {
        let winner = tournament_selection(&population, &mut rng);
        let at = population.iter().position(|m| std::ptr::eq(m, winner));
        assert!(at.is_some());
        winners.insert(at.unwrap());
    }
    // the worst member only wins when it is drawn every time
    assert!(winners.len() > 3);
    assert!(winners.contains(&9));
    assert_eq!(TOURNAMENT_SIZE, 5);
}

#[test]
fn tournament_in_a_population_of_one() {
    let population = vec![member(0, None)];
    let mut rng = StdRng::seed_from_u64(10);
    let winner = tournament_selection(&population, &mut rng);
    assert!(std::ptr::eq(winner, &population[0]));
}

#[test]
fn tournament_leaves_the_population_alone() {
    let population: Vec<Individual> = (0..10).map(|i| member(i, Some(i as u64))).collect();
    let copy = population.clone();
    let mut rng = StdRng::seed_from_u64(11);
    for _ in 0..50 {
        tournament_selection(&population, &mut rng);
    }
    assert_eq!(population, copy);
}
