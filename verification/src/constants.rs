//! Run configuration.

use vstd::prelude::*;

verus! {

/// Largest value of a genotype coordinate; the smallest is 0.
pub const MAX_COORD: i32 = 1000;

/// Number of line segments in every genotype.
pub const NUM_LINES: usize = 30;

/// Side of the square canvas, in pixels.
pub const RENDER_SIZE: u32 = 64;

/// Largest canvas side the rasterizer accepts: the pixel count of such a
/// canvas still fits a 32-bit index.
pub const MAX_RENDER_SIZE: u32 = 65535;

/// Number of individuals in every population.
pub const POPULATION_SIZE: usize = 50;

/// Number of generations of a full run.
pub const NUM_GENERATIONS: usize = 15000;

/// A report is due on every generation that is a multiple of this.
pub const OUTPUT_EVERY: usize = 500;

/// A line is a mutation candidate with probability
/// `MUTATION_RATE_NUMERATOR / MUTATION_RATE_DENOMINATOR`, one in ten.
pub const MUTATION_RATE_NUMERATOR: u32 = 1;

/// See `MUTATION_RATE_NUMERATOR`.
pub const MUTATION_RATE_DENOMINATOR: u32 = 10;

/// Each end of a candidate line is perturbed with probability
/// `POINT_MUTATION_RATE_NUMERATOR / POINT_MUTATION_RATE_DENOMINATOR`, one in
/// two.
pub const POINT_MUTATION_RATE_NUMERATOR: u32 = 1;

/// See `POINT_MUTATION_RATE_NUMERATOR`.
pub const POINT_MUTATION_RATE_DENOMINATOR: u32 = 2;

/// A perturbation moves a coordinate by an offset in
/// `[-MUTATION_AMOUNT, MUTATION_AMOUNT)`.
pub const MUTATION_AMOUNT: i32 = 50;

/// Number of draws of one tournament.
pub const TOURNAMENT_SIZE: usize = 5;

/// Number of best individuals carried unchanged into the next generation.
pub const ELITISM_COUNT: usize = 2;

} // verus!
