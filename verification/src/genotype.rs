//! Points, lines, genotypes and individuals.

use vstd::prelude::*;
use rand::rngs::StdRng;
use crate::constants::{MAX_COORD, NUM_LINES};
use crate::fitness::Mse;
use crate::random::random_i32;

verus! {

/// A point of the drawing plane.
#[derive(Clone, Copy, Debug, PartialEq, Eq, Structural)]
pub struct Point {
    pub x: i32,
    pub y: i32,
}

impl Point {
    /// Both coordinates lie in `[0, MAX_COORD]`.
    pub open spec fn in_bounds(self) -> bool {
        0 <= self.x <= MAX_COORD && 0 <= self.y <= MAX_COORD
    }

    /// The point `(x, y)`.
    pub fn new(x: i32, y: i32) -> (p: Self)
        ensures
            p.x == x,
            p.y == y,
    {
        Point { x, y }
    }

    /// A point with each coordinate drawn from `[0, MAX_COORD]`.
    pub fn random(rng: &mut StdRng) -> (p: Self)
        ensures
            p.in_bounds(),
    {
        let x: i32 = random_i32(rng, 0, MAX_COORD + 1);
        let y: i32 = random_i32(rng, 0, MAX_COORD + 1);
        Point::new(x, y)
    }
}

/// A straight segment from `start` to `end`.
#[derive(Clone, Copy, Debug, PartialEq, Eq, Structural)]
pub struct Line {
    pub start: Point,
    pub end: Point,
}

impl Line {
    /// Both ends lie in bounds.
    pub open spec fn in_bounds(self) -> bool {
        self.start.in_bounds() && self.end.in_bounds()
    }

    /// The line from `start` to `end`.
    pub fn new(start: Point, end: Point) -> (l: Self)
        ensures
            l.start == start,
            l.end == end,
    {
        Line { start, end }
    }

    /// A line between two points drawn independently; they may coincide.
    pub fn random(rng: &mut StdRng) -> (l: Self)
        ensures
            l.in_bounds(),
    {
        let start = Point::random(rng);
        let end = Point::random(rng);
        Line::new(start, end)
    }
}

/// Every line of the sequence lies in bounds.
pub open spec fn lines_in_bounds(lines: Seq<Line>) -> bool {
    forall|i: int| 0 <= i < lines.len() ==> (#[trigger] lines[i]).in_bounds()
}

/// An ordered sequence of lines. The order fixes the position of each gene
/// for crossover.
#[derive(Clone, Debug, PartialEq, Eq)]
pub struct Genotype {
    pub lines: Vec<Line>,
}

impl View for Genotype {
    type V = Seq<Line>;

    open spec fn view(&self) -> Seq<Line> {
        self.lines@
    }
}

impl Genotype {
    /// Exactly `NUM_LINES` lines, each in bounds.
    pub open spec fn wf(&self) -> bool {
        self@.len() == NUM_LINES && lines_in_bounds(self@)
    }

    /// `NUM_LINES` lines drawn independently.
    pub fn new_random(rng: &mut StdRng) -> (g: Self)
        ensures
            g.wf(),
    {
        let mut lines: Vec<Line> = Vec::new();
        let mut i: usize = 0;
        while i < NUM_LINES
            invariant
                i <= NUM_LINES,
                lines@.len() == i,
                lines_in_bounds(lines@),
            decreases NUM_LINES - i,
        {
            let line = Line::random(rng);
            lines.push(line);
            i = i + 1;
        }
        Genotype { lines }
    }

    /// A copy with the same lines in the same order.
    pub fn duplicate(&self) -> (g: Self)
        ensures
            g@ == self@,
    {
        let mut lines: Vec<Line> = Vec::new();
        let mut i: usize = 0;
        while i < self.lines.len()
            invariant
                i <= self.lines.len(),
                lines@ == self.lines@.subrange(0, i as int),
            decreases self.lines.len() - i,
        {
            lines.push(self.lines[i]);
            i = i + 1;
        }
        Genotype { lines }
    }
}


/// A genotype with the error its picture was last scored at. An individual
/// that was never scored holds `None`, which ranks behind every score.
#[derive(Clone, Debug, PartialEq, Eq)]
pub struct Individual {
    pub genotype: Genotype,
    pub fitness: Option<Mse>,
}

/// The first fitness is strictly better than the second: a lower error, or
/// any error against none.
pub open spec fn fitter(a: Option<Mse>, b: Option<Mse>) -> bool {
    match (a, b) {
        (Some(x), Some(y)) => x.less_than(y),
        (Some(_), None) => true,
        (None, _) => false,
    }
}

/// A fitness that can be ranked: none yet, or an error over at least one
/// pixel.
pub open spec fn rankable(f: Option<Mse>) -> bool {
    match f {
        Some(m) => m.count > 0,
        None => true,
    }
}

/// Nothing is strictly better than itself.
pub proof fn lemma_fitter_irreflexive(a: Option<Mse>)
    ensures
        !fitter(a, a),
{
}

/// Of two fitnesses at most one is strictly better than the other.
pub proof fn lemma_fitter_asymmetric(a: Option<Mse>, b: Option<Mse>)
    ensures
        !(fitter(a, b) && fitter(b, a)),
{
}

/// If `a` is not better than `b`, then whatever is better than `a` is better
/// than `b` too.
pub proof fn lemma_fitter_negatively_transitive(a: Option<Mse>, b: Option<Mse>, c: Option<Mse>)
    requires
        rankable(a),
        rankable(b),
        rankable(c),
        !fitter(a, b),
        fitter(c, b),
    ensures
        !fitter(a, c),
{
    if let (Some(x), Some(y), Some(z)) = (a, b, c) {
        // y <= x and z < y, so z < x: x is not below z
        let xs = x.sum as int;
        let xc = x.count as int;
        let ys = y.sum as int;
        let yc = y.count as int;
        let zs = z.sum as int;
        let zc = z.count as int;
        assert(!(xs * zc < zs * xc)) by (nonlinear_arith)
            requires
                xs * yc >= ys * xc,
                zs * yc < ys * zc,
                xc > 0,
                yc > 0,
                zc > 0,
                xs >= 0,
                ys >= 0,
                zs >= 0,
        ;
    }
}

/// If `c` is no better than `b` and `b` no better than `a`, then `c` is no
/// better than `a`.
pub proof fn lemma_not_fitter_transitive(a: Option<Mse>, b: Option<Mse>, c: Option<Mse>)
    requires
        rankable(a),
        rankable(b),
        rankable(c),
        !fitter(c, b),
        !fitter(b, a),
    ensures
        !fitter(c, a),
{
    if let (Some(x), Some(y), Some(z)) = (a, b, c) {
        let xs = x.sum as int;
        let xc = x.count as int;
        let ys = y.sum as int;
        let yc = y.count as int;
        let zs = z.sum as int;
        let zc = z.count as int;
        assert(!(zs * xc < xs * zc)) by (nonlinear_arith)
            requires
                zs * yc >= ys * zc,
                ys * xc >= xs * yc,
                xc > 0,
                yc > 0,
                zc > 0,
                xs >= 0,
                ys >= 0,
                zs >= 0,
        ;
    }
}

impl Individual {
    /// The genotype is well formed and the fitness can be ranked.
    pub open spec fn wf(&self) -> bool {
        self.genotype.wf() && rankable(self.fitness)
    }

    /// An individual that has not been scored yet.
    pub fn new(genotype: Genotype) -> (individual: Self)
        ensures
            individual.genotype == genotype,
            individual.fitness is None,
    {
        Individual { genotype, fitness: None }
    }

    /// Whether `self` is strictly better than `other`.
    pub fn is_fitter_than(&self, other: &Individual) -> (r: bool)
        ensures
            r == fitter(self.fitness, other.fitness),
    {
        match self.fitness {
            Some(mine) => match other.fitness {
                Some(theirs) => mine.lt(&theirs),
                None => true,
            },
            None => false,
        }
    }

    /// A copy with the same lines and the same fitness.
    pub fn duplicate(&self) -> (individual: Self)
        ensures
            individual.genotype@ == self.genotype@,
            individual.fitness == self.fitness,
    {
        Individual { genotype: self.genotype.duplicate(), fitness: self.fitness }
    }
}

} // verus!
