use glyph_evolution::fitness::Mse;
use glyph_evolution::genotype::{Genotype, Individual, Line, Point};
use glyph_evolution::render::calculate_mse;

fn unscored() -> Individual {
    Individual::new(Genotype { lines: vec![Line::new(Point::new(0, 0), Point::new(1, 1))] })
}

fn scored(sum: u64, count: usize) -> Individual {
    let mut individual = unscored();
    individual.fitness = Some(Mse { sum, count });
    individual
}

#[test]
fn mse_of_a_buffer_against_itself_is_zero() {
    let a: Vec<u8> = vec![0, 17, 255, 3, 128];
    let mse = calculate_mse(&a, &a);
    assert_eq!(mse, Mse { sum: 0, count: 5 });
}

#[test]
fn mse_is_symmetric() {
    let a: Vec<u8> = vec![0, 17, 255, 3, 128, 9];
    let b: Vec<u8> = vec![255, 16, 0, 200, 128, 10];
    assert_eq!(calculate_mse(&a, &b), calculate_mse(&b, &a));
}

#[test]
fn mse_sums_squared_differences_over_the_pixel_count() {
    let a: Vec<u8> = vec![0, 10, 255];
    let b: Vec<u8> = vec![0, 0, 0];
    let mse = calculate_mse(&a, &b);
    assert_eq!(mse.sum, 100 + 65025);
    assert_eq!(mse.count, 3);
}

#[test]
fn mse_of_empty_buffers_has_no_mean() {
    let a: Vec<u8> = Vec::new();
    let mse = calculate_mse(&a, &a);
    assert_eq!(mse, Mse { sum: 0, count: 0 });
}

#[test]
fn mse_of_extreme_buffers() {
    let a: Vec<u8> = vec![255; 4096];
    let b: Vec<u8> = vec![0; 4096];
    let mse = calculate_mse(&a, &b);
    assert_eq!(mse.sum, 65025 * 4096);
    assert_eq!(mse.count, 4096);
}

#[test]
fn mse_comparison_is_by_ratio() {
    let third = Mse { sum: 1, count: 3 };
    let half = Mse { sum: 2, count: 4 };
    let also_half = Mse { sum: 1, count: 2 };
    assert!(third.lt(&half));
    assert!(!half.lt(&third));
    assert!(!half.lt(&also_half));
    assert!(!also_half.lt(&half));
    let large = Mse { sum: u64::MAX, count: 1 };
    let larger = Mse { sum: u64::MAX, count: usize::MAX };
    assert!(larger.lt(&large));
    assert!(!large.lt(&larger));
}

#[test]
fn new_individual_is_unscored() {
    let individual = unscored();
    assert_eq!(individual.fitness, None);
    assert_eq!(individual.genotype.lines.len(), 1);
}

#[test]
fn unscored_individual_ranks_behind_every_score() {
    let worst_score = scored(65025 * 4096, 4096);
    let none = unscored();
    assert!(worst_score.is_fitter_than(&none));
    assert!(!none.is_fitter_than(&worst_score));
    assert!(!none.is_fitter_than(&unscored()));
}

#[test]
fn lower_error_is_fitter() {
    let a = scored(10, 4);
    let b = scored(11, 4);
    assert!(a.is_fitter_than(&b));
    assert!(!b.is_fitter_than(&a));
    assert!(!a.is_fitter_than(&scored(10, 4)));
}

#[test]
fn duplicate_keeps_lines_and_fitness() {
    let a = scored(10, 4);
    let b = a.duplicate();
    assert_eq!(a, b);
}
