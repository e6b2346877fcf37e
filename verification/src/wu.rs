//! Anti-aliased scan conversion of one line segment, in exact arithmetic.
//!
//! Canvas coordinates are rationals with the fixed denominator `MAX_COORD`
//! and are passed as their numerators. The segment is walked along its major
//! axis; in every column it crosses, the two pixels that straddle the ideal
//! line share its intensity in proportion to the line's fractional height.

use vstd::prelude::*;
use vstd::arithmetic::div_mod::lemma_fundamental_div_mod_converse;
use vstd::arithmetic::div_mod::lemma_fundamental_div_mod;
use crate::constants::{MAX_COORD, MAX_RENDER_SIZE};
use crate::render::{PixelBuffer, brighter, dot_intensity, in_canvas, lemma_index_is_pixel, pixel,
    put_pixel};

verus! {

/// Distance of `a` from zero.
pub open spec fn magnitude(a: int) -> int {
    if a >= 0 {
        a
    } else {
        -a
    }
}

/// A segment laid along its major axis: `u` runs along that axis, `v` across
/// it, and `u0 <= u1`. For a steep segment `u` is the canvas `y`.
pub struct Run {
    pub steep: bool,
    pub u0: int,
    pub v0: int,
    pub u1: int,
    pub v1: int,
}

/// The run of the segment from `(x0, y0)` to `(x1, y1)`: steep when it rises
/// more than it advances, and ordered from its lower major coordinate.
pub open spec fn run_of(x0: int, y0: int, x1: int, y1: int) -> Run {
    let steep = magnitude(y1 - y0) > magnitude(x1 - x0);
    let a0 = if steep { y0 } else { x0 };
    let b0 = if steep { x0 } else { y0 };
    let a1 = if steep { y1 } else { x1 };
    let b1 = if steep { x1 } else { y1 };
    if a0 > a1 {
        Run { steep, u0: a1, v0: b1, u1: a0, v1: b0 }
    } else {
        Run { steep, u0: a0, v0: b0, u1: a1, v1: b1 }
    }
}

/// The column nearest to the major coordinate `u`, halves rounded up.
pub open spec fn nearest_column(u: int) -> int {
    (2 * u + MAX_COORD) / (2 * MAX_COORD)
}

/// Share of its end column that a run ending at `u` is given, as a numerator
/// over `2 * MAX_COORD`: one minus the fractional part of `u + 1/2`.
pub open spec fn column_gap(u: int) -> int {
    2 * MAX_COORD - (2 * u + MAX_COORD) % (2 * MAX_COORD)
}

/// Denominator of the heights of a run.
pub open spec fn height_unit(r: Run) -> int {
    MAX_COORD * (r.u1 - r.u0)
}

/// Height of the ideal line of a run above column `c`, as a numerator over
/// `height_unit`.
pub open spec fn height(r: Run, c: int) -> int {
    r.v0 * (r.u1 - r.u0) + (r.v1 - r.v0) * (c * MAX_COORD - r.u0)
}

/// The intensity for a coverage of `num / den`: 255 times the coverage,
/// rounded to the nearest integer, halves rounded up.
pub open spec fn shade(num: int, den: int) -> int {
    (510 * num + den) / (2 * den)
}

/// What column `c` gives the pixel `(col, row)` when the ideal line stands at
/// height `h / q` there and the column counts for `wn / wd`. The two rows
/// that straddle the height share the column: the row at the whole part of
/// the height gets one minus its fractional part, the next row gets the
/// fractional part.
pub open spec fn pair_intensity(c: int, h: int, q: int, wn: int, wd: int, col: int, row: int) -> int {
    if col != c {
        0
    } else if row == h / q {
        shade((q - h % q) * wn, q * wd)
    } else if row == h / q + 1 {
        shade((h % q) * wn, q * wd)
    } else {
        0
    }
}

/// Intensity that a run gives the pixel `(col, row)`, counting its two end
/// columns and the columns strictly between them that lie below `k`.
pub open spec fn run_intensity_below(r: Run, k: int, col: int, row: int) -> int {
    let q = height_unit(r);
    let c0 = nearest_column(r.u0);
    let c1 = nearest_column(r.u1);
    let first = pair_intensity(c0, height(r, c0), q, column_gap(r.u0), 2 * MAX_COORD, col, row);
    let last = pair_intensity(c1, height(r, c1), q, column_gap(r.u1), 2 * MAX_COORD, col, row);
    let inner = if c0 < col < c1 && col < k {
        pair_intensity(col, height(r, col), q, 1, 1, col, row)
    } else {
        0
    };
    brighter(brighter(first, last), inner)
}

/// Intensity that a run gives the pixel `(col, row)`. A run of no length
/// gives none.
pub open spec fn run_intensity(r: Run, col: int, row: int) -> int {
    if r.u1 - r.u0 <= 0 {
        0
    } else {
        run_intensity_below(r, nearest_column(r.u1), col, row)
    }
}

/// Intensity that the segment from `(x0, y0)` to `(x1, y1)` gives the canvas
/// pixel `(x, y)`.
pub open spec fn line_intensity(x0: int, y0: int, x1: int, y1: int, x: int, y: int) -> int {
    let r = run_of(x0, y0, x1, y1);
    if r.steep {
        run_intensity(r, y, x)
    } else {
        run_intensity(r, x, y)
    }
}

/// Intensity at the canvas pixel `(x, y)` of a single dot of `color` at
/// `(col, row)` of a run.
pub open spec fn run_dot_intensity(steep: bool, col: int, row: int, color: int, x: int, y: int) -> int {
    if steep {
        dot_intensity(row, col, color, x, y)
    } else {
        dot_intensity(col, row, color, x, y)
    }
}

/// `pair_intensity` at the canvas pixel `(x, y)`.
pub open spec fn pair_intensity_at(steep: bool, c: int, h: int, q: int, wn: int, wd: int, x: int, y: int) -> int {
    if steep {
        pair_intensity(c, h, q, wn, wd, y, x)
    } else {
        pair_intensity(c, h, q, wn, wd, x, y)
    }
}

/// A coverage of at most one shades to at most 255.
pub proof fn lemma_shade_range(num: int, den: int)
    requires
        0 <= num <= den,
        0 < den,
    ensures
        0 <= shade(num, den) <= 255,
{
    let a = 510 * num + den;
    let b = 2 * den;
    lemma_fundamental_div_mod(a, b);
    assert(0 <= a % b < b) by (nonlinear_arith)
        requires
            b > 0,
    ;
    assert(a < 256 * b);
    assert(a / b < 256) by (nonlinear_arith)
        requires
            a == b * (a / b) + a % b,
            0 <= a % b < b,
            a < 256 * b,
            b > 0,
    ;
    assert(a / b >= 0) by (nonlinear_arith)
        requires
            a == b * (a / b) + a % b,
            0 <= a % b < b,
            a >= 0,
            b > 0,
    ;
}

/// A column that counts for at most one gives each pixel at most 255.
pub proof fn lemma_pair_intensity_range(c: int, h: int, q: int, wn: int, wd: int, col: int, row: int)
    requires
        0 < q,
        0 <= wn <= wd,
        0 < wd,
    ensures
        0 <= pair_intensity(c, h, q, wn, wd, col, row) <= 255,
{
    let frac = h % q;
    assert(0 <= frac < q) by (nonlinear_arith)
        requires
            frac == h % q,
            q > 0,
    ;
    assert(0 <= (q - frac) * wn <= q * wd) by (nonlinear_arith)
        requires
            0 <= frac < q,
            0 <= wn <= wd,
    ;
    assert(0 <= frac * wn <= q * wd) by (nonlinear_arith)
        requires
            0 <= frac < q,
            0 <= wn <= wd,
    ;
    assert(0 < q * wd) by (nonlinear_arith)
        requires
            0 < q,
            0 < wd,
    ;
    lemma_shade_range((q - frac) * wn, q * wd);
    lemma_shade_range(frac * wn, q * wd);
}

/// A segment gives every pixel an intensity between 0 and 255.
pub proof fn lemma_line_intensity_range(x0: int, y0: int, x1: int, y1: int, x: int, y: int)
    ensures
        0 <= line_intensity(x0, y0, x1, y1, x, y) <= 255,
{
    let r = run_of(x0, y0, x1, y1);
    let col = if r.steep { y } else { x };
    let row = if r.steep { x } else { y };
    if r.u1 - r.u0 > 0 {
        let q = height_unit(r);
        let c0 = nearest_column(r.u0);
        let c1 = nearest_column(r.u1);
        assert(q > 0) by (nonlinear_arith)
            requires
                q == MAX_COORD * (r.u1 - r.u0),
                r.u1 - r.u0 > 0,
                MAX_COORD == 1000,
        ;
        lemma_nearest_column(r.u0);
        lemma_nearest_column(r.u1);
        lemma_pair_intensity_range(c0, height(r, c0), q, column_gap(r.u0), 2 * MAX_COORD, col, row);
        lemma_pair_intensity_range(c1, height(r, c1), q, column_gap(r.u1), 2 * MAX_COORD, col, row);
        lemma_pair_intensity_range(col, height(r, col), q, 1, 1, col, row);
    }
}

/// The intensity for a coverage of `num / den`.
fn shade_of(num: u64, den: u64) -> (color: u8)
    requires
        num <= den,
        0 < den,
        den <= 0x8000_0000_0000,
    ensures
        color == shade(num as int, den as int),
{
    proof {
        lemma_shade_range(num as int, den as int);
    }
    let value: u64 = (510 * num + den) / (2 * den);
    value as u8
}

/// Brightens the pixel at `(col, row)` of a run to at least `color`; a pixel
/// off the canvas is dropped.
fn plot(buffer: &mut PixelBuffer, size: u32, steep: bool, col: i64, row: i64, color: u8)
    requires
        old(buffer)@.len() == size as int * size as int,
    ensures
        final(buffer)@.len() == old(buffer)@.len(),
        forall|x: int, y: int|
            in_canvas(size as int, x, y) ==> #[trigger] pixel(final(buffer)@, size as int, x, y)
                == brighter(
                pixel(old(buffer)@, size as int, x, y),
                run_dot_intensity(steep, col as int, row as int, color as int, x, y),
            ),
{
    if steep {
        put_pixel(buffer, size, row, col, color);
    } else {
        put_pixel(buffer, size, col, row, color);
    }
}

/// Brightens the two pixels of column `c` that straddle the height `h / q`,
/// the column counting for `wn / wd`.
fn plot_pair(buffer: &mut PixelBuffer, size: u32, steep: bool, c: i64, h: i64, q: i64, wn: i64, wd: i64)
    requires
        old(buffer)@.len() == size as int * size as int,
        0 < q <= 0x10_0000_0000,
        -q <= h <= 0x40_0000_0000_0000,
        0 <= wn <= wd,
        0 < wd <= 2048,
    ensures
        final(buffer)@.len() == old(buffer)@.len(),
        forall|x: int, y: int|
            in_canvas(size as int, x, y) ==> #[trigger] pixel(final(buffer)@, size as int, x, y)
                == brighter(
                pixel(old(buffer)@, size as int, x, y),
                pair_intensity_at(steep, c as int, h as int, q as int, wn as int, wd as int, x, y),
            ),
{
    let lifted: i64 = h + q;
    let base: i64 = lifted / q - 1;
    let frac: i64 = lifted % q;
    proof {
        lemma_fundamental_div_mod(lifted as int, q as int);
        assert(0 <= (lifted as int) % (q as int) < q) by (nonlinear_arith)
            requires
                q > 0,
        ;
        assert(h as int == (q as int) * (base as int) + frac as int) by (nonlinear_arith)
            requires
                lifted as int == (q as int) * ((lifted as int) / (q as int)) + (lifted as int) % (
                q as int),
                base as int == (lifted as int) / (q as int) - 1,
                frac as int == (lifted as int) % (q as int),
                lifted as int == h as int + q as int,
        ;
        assert(h as int == (base as int) * (q as int) + frac as int) by (nonlinear_arith)
            requires
                h as int == (q as int) * (base as int) + frac as int,
        ;
        lemma_fundamental_div_mod_converse(h as int, q as int, base as int, frac as int);
        assert((q - frac) * wn <= q * wd) by (nonlinear_arith)
            requires
                0 <= frac < q,
                0 <= wn <= wd,
        ;
        assert(frac * wn <= q * wd) by (nonlinear_arith)
            requires
                0 <= frac < q,
                0 <= wn <= wd,
        ;
        assert(0 < q * wd <= 0x8000_0000_0000) by (nonlinear_arith)
            requires
                0 < q <= 0x10_0000_0000,
                0 < wd <= 2048,
        ;
        assert(0 <= (q - frac) * wn) by (nonlinear_arith)
            requires
                0 <= frac < q,
                0 <= wn,
        ;
        assert(0 <= frac * wn) by (nonlinear_arith)
            requires
                0 <= frac < q,
                0 <= wn,
        ;
    }
    let den: u64 = (q * wd) as u64;
    let below: u8 = shade_of(((q - frac) * wn) as u64, den);
    let above: u8 = shade_of((frac * wn) as u64, den);
    let ghost start = buffer@;
    plot(buffer, size, steep, c, base, below);
    let ghost middle = buffer@;
    plot(buffer, size, steep, c, base + 1, above);
    proof {
        let side = size as int;
        assert forall|x: int, y: int| in_canvas(side, x, y) implies #[trigger] pixel(
            buffer@,
            side,
            x,
            y,
        ) == brighter(
            pixel(start, side, x, y),
            pair_intensity_at(steep, c as int, h as int, q as int, wn as int, wd as int, x, y),
        ) by {
            assert(pixel(middle, side, x, y) == brighter(
                pixel(start, side, x, y),
                run_dot_intensity(steep, c as int, base as int, below as int, x, y),
            ));
        }
    }
}

/// The coordinate `v` is the numerator of a position on a canvas of side
/// `size`: between 0 and `size - 1`, in units of `1 / MAX_COORD`.
pub open spec fn on_grid(size: int, v: int) -> bool {
    0 <= v <= (size - 1) * MAX_COORD
}

/// `run_intensity_below` at the canvas pixel `(x, y)`.
pub open spec fn run_intensity_below_at(r: Run, k: int, x: int, y: int) -> int {
    if r.steep {
        run_intensity_below(r, k, y, x)
    } else {
        run_intensity_below(r, k, x, y)
    }
}

/// The nearest column of `u` lies within half a column of it.
proof fn lemma_nearest_column(u: int)
    ensures
        -MAX_COORD < 2 * (nearest_column(u) * MAX_COORD - u) <= MAX_COORD,
        1 <= column_gap(u) <= 2 * MAX_COORD,
{
    let a = 2 * u + MAX_COORD;
    let b = 2 * MAX_COORD;
    lemma_fundamental_div_mod(a, b);
    assert(a == b * (a / b) + a % b);
    assert(0 <= a % b < b);
    assert(b * (a / b) == 2 * ((a / b) * MAX_COORD)) by (nonlinear_arith)
        requires
            b == 2 * MAX_COORD,
    ;
}

/// Between the end columns of a run that is no steeper than one, the ideal
/// line stays within half a pixel of the span of its two ends.
proof fn lemma_height_range(r: Run, c: int, limit: int)
    requires
        0 <= r.u0 < r.u1 <= limit,
        0 <= r.v0 <= limit,
        0 <= r.v1 <= limit,
        magnitude(r.v1 - r.v0) <= r.u1 - r.u0,
        nearest_column(r.u0) <= c <= nearest_column(r.u1),
    ensures
        -height_unit(r) <= 2 * height(r, c),
        2 * height(r, c) <= 2 * limit * (r.u1 - r.u0) + height_unit(r),
{
    let d = MAX_COORD as int;
    let du = r.u1 - r.u0;
    let dv = r.v1 - r.v0;
    let t = c * d - r.u0;
    lemma_nearest_column(r.u0);
    lemma_nearest_column(r.u1);
    assert(c * d >= nearest_column(r.u0) * d) by (nonlinear_arith)
        requires
            c >= nearest_column(r.u0),
            d > 0,
    ;
    assert(c * d <= nearest_column(r.u1) * d) by (nonlinear_arith)
        requires
            c <= nearest_column(r.u1),
            d > 0,
    ;
    assert(-d <= 2 * t <= d + 2 * du);
    assert(r.v0 * du >= 0 && r.v1 * du >= 0 && r.v0 * du <= limit * du && r.v1 * du <= limit
        * du) by (nonlinear_arith)
        requires
            0 <= r.v0 <= limit,
            0 <= r.v1 <= limit,
            du > 0,
    ;
    assert(r.v1 * du == r.v0 * du + dv * du) by (nonlinear_arith)
        requires
            dv == r.v1 - r.v0,
    ;
    if dv >= 0 {
        assert(dv * (2 * t) >= dv * (-d) && dv * (2 * t) <= dv * (d + 2 * du)) by (nonlinear_arith)
            requires
                dv >= 0,
                -d <= 2 * t <= d + 2 * du,
        ;
        assert(dv * (d + 2 * du) == dv * d + 2 * (dv * du)) by (nonlinear_arith);
        assert(dv * (-d) == -(dv * d)) by (nonlinear_arith);
        assert(dv * d <= du * d) by (nonlinear_arith)
            requires
                0 <= dv <= du,
                d > 0,
        ;
    } else {
        assert(dv * (2 * t) <= dv * (-d) && dv * (2 * t) >= dv * (d + 2 * du)) by (nonlinear_arith)
            requires
                dv < 0,
                -d <= 2 * t <= d + 2 * du,
        ;
        assert(dv * (d + 2 * du) == dv * d + 2 * (dv * du)) by (nonlinear_arith);
        assert(dv * (-d) == -(dv * d)) by (nonlinear_arith);
        assert(-(dv * d) <= du * d && dv * d <= 0) by (nonlinear_arith)
            requires
                -du <= dv < 0,
                d > 0,
        ;
    }
    assert(2 * height(r, c) == 2 * (r.v0 * du) + dv * (2 * t)) by (nonlinear_arith)
        requires
            height(r, c) == r.v0 * du + dv * t,
    ;
    assert(height_unit(r) == du * d) by (nonlinear_arith)
        requires
            height_unit(r) == d * du,
    ;
    assert(2 * limit * du == 2 * (limit * du)) by (nonlinear_arith);
}

/// Moving one column along a run raises the ideal line by its slope.
proof fn lemma_height_step(r: Run, c: int)
    ensures
        height(r, c + 1) == height(r, c) + (r.v1 - r.v0) * MAX_COORD,
{
    let d = MAX_COORD as int;
    let dv = r.v1 - r.v0;
    assert(dv * ((c + 1) * d - r.u0) == dv * (c * d - r.u0) + dv * d) by (nonlinear_arith);
}

/// Draws the segment from `(x0, y0)` to `(x1, y1)`, given in units of
/// `1 / MAX_COORD` of a pixel, onto a canvas of side `size`. Every pixel
/// ends as the brighter of what it held and what the segment gives it; a
/// segment of no length gives nothing.
pub fn draw_line_wu(buffer: &mut PixelBuffer, size: u32, x0: i64, y0: i64, x1: i64, y1: i64)
    requires
        1 <= size <= MAX_RENDER_SIZE,
        old(buffer)@.len() == size as int * size as int,
        on_grid(size as int, x0 as int),
        on_grid(size as int, y0 as int),
        on_grid(size as int, x1 as int),
        on_grid(size as int, y1 as int),
    ensures
        final(buffer)@.len() == old(buffer)@.len(),
        forall|x: int, y: int|
            in_canvas(size as int, x, y) ==> #[trigger] pixel(final(buffer)@, size as int, x, y)
                == brighter(
                pixel(old(buffer)@, size as int, x, y),
                line_intensity(x0 as int, y0 as int, x1 as int, y1 as int, x, y),
            ),
        forall|i: int|
            0 <= i < old(buffer)@.len() ==> old(buffer)@[i] <= #[trigger] final(buffer)@[i] <= 255,
{
    draw_line(buffer, size, x0, y0, x1, y1);
    proof {
        let side = size as int;
        assert forall|i: int| 0 <= i < old(buffer)@.len() implies old(buffer)@[i]
            <= #[trigger] buffer@[i] by {
            lemma_index_is_pixel(side, i);
            assert(pixel(buffer@, side, i % side, i / side) == buffer@[i]);
        }
    }
}

/// The scan conversion behind `draw_line_wu`.
fn draw_line(buffer: &mut PixelBuffer, size: u32, x0: i64, y0: i64, x1: i64, y1: i64)
    requires
        1 <= size <= MAX_RENDER_SIZE,
        old(buffer)@.len() == size as int * size as int,
        on_grid(size as int, x0 as int),
        on_grid(size as int, y0 as int),
        on_grid(size as int, x1 as int),
        on_grid(size as int, y1 as int),
    ensures
        final(buffer)@.len() == old(buffer)@.len(),
        forall|x: int, y: int|
            in_canvas(size as int, x, y) ==> #[trigger] pixel(final(buffer)@, size as int, x, y)
                == brighter(
                pixel(old(buffer)@, size as int, x, y),
                line_intensity(x0 as int, y0 as int, x1 as int, y1 as int, x, y),
            ),
{
    let ghost side = size as int;
    let ghost r = run_of(x0 as int, y0 as int, x1 as int, y1 as int);
    // no coordinate of the largest canvas exceeds this
    let ghost limit: int = 65_534_000;
    let d: i64 = MAX_COORD as i64;
    let across: i64 = if x1 >= x0 { x1 - x0 } else { x0 - x1 };
    let along: i64 = if y1 >= y0 { y1 - y0 } else { y0 - y1 };
    let steep: bool = along > across;
    let a0: i64 = if steep { y0 } else { x0 };
    let b0: i64 = if steep { x0 } else { y0 };
    let a1: i64 = if steep { y1 } else { x1 };
    let b1: i64 = if steep { x1 } else { y1 };
    let flip: bool = a0 > a1;
    let u0: i64 = if flip { a1 } else { a0 };
    let v0: i64 = if flip { b1 } else { b0 };
    let u1: i64 = if flip { a0 } else { a1 };
    let v1: i64 = if flip { b0 } else { b1 };
    assert(r == Run { steep, u0: u0 as int, v0: v0 as int, u1: u1 as int, v1: v1 as int });
    let du: i64 = u1 - u0;
    if du == 0 {
        return ;
    }
    let dv: i64 = v1 - v0;
    let q: i64 = d * du;
    let c0: i64 = (2 * u0 + d) / (2 * d);
    let c1: i64 = (2 * u1 + d) / (2 * d);
    let gap0: i64 = 2 * d - (2 * u0 + d) % (2 * d);
    let gap1: i64 = 2 * d - (2 * u1 + d) % (2 * d);
    proof {
        lemma_nearest_column(u0 as int);
        lemma_nearest_column(u1 as int);
        assert(c0 as int * d as int <= limit + 500 && c1 as int * d as int <= limit + 500);
        assert(c0 <= c1);
        lemma_height_range(r, c0 as int, limit);
        lemma_height_range(r, c1 as int, limit);
        assert(-limit * limit <= v0 as int * du as int <= limit * limit) by (nonlinear_arith)
            requires
                0 <= v0 <= limit,
                0 < du <= limit,
        ;
        assert(-limit * (limit + 500) <= dv as int * (c0 as int * d as int - u0 as int) <= limit * (
        limit + 500)) by (nonlinear_arith)
            requires
                -limit <= dv <= limit,
                -500 <= c0 as int * d as int - u0 as int <= limit + 500,
                limit > 0,
        ;
        assert(-limit * (limit + 500) <= dv as int * (c1 as int * d as int - u0 as int) <= limit * (
        limit + 500)) by (nonlinear_arith)
            requires
                -limit <= dv <= limit,
                -500 <= c1 as int * d as int - u0 as int <= limit + 500,
                limit > 0,
        ;
        assert(2 * limit * du as int <= 2 * limit * limit) by (nonlinear_arith)
            requires
                0 < du <= limit,
                limit > 0,
        ;
    }
    let h0: i64 = v0 * du + dv * (c0 * d - u0);
    plot_pair(buffer, size, steep, c0, h0, q, gap0, 2 * d);
    let h1: i64 = v0 * du + dv * (c1 * d - u0);
    plot_pair(buffer, size, steep, c1, h1, q, gap1, 2 * d);
    let step: i64 = dv * d;
    let mut c: i64 = c0 + 1;
    let mut h: i64 = h0 + step;
    proof {
        lemma_height_step(r, c0 as int);
    }
    while c < c1
        invariant
            1 <= size <= MAX_RENDER_SIZE,
            side == size as int,
            limit == 65_534_000,
            r == (Run { steep, u0: u0 as int, v0: v0 as int, u1: u1 as int, v1: v1 as int }),
            0 <= u0 < u1 <= limit,
            0 <= v0 <= limit,
            0 <= v1 <= limit,
            magnitude(v1 - v0) <= u1 - u0,
            du == u1 - u0,
            q == MAX_COORD * du,
            step == (v1 - v0) * MAX_COORD,
            c0 == nearest_column(u0 as int),
            c1 == nearest_column(u1 as int),
            c0 < c,
            c <= c1 || c == c0 + 1,
            c1 <= 70_000,
            h == height(r, c as int),
            -0x20_0000_0000_0000 <= h <= 0x20_0000_0000_0000,
            buffer@.len() == old(buffer)@.len(),
            buffer@.len() == side * side,
            forall|x: int, y: int|
                in_canvas(side, x, y) ==> #[trigger] pixel(buffer@, side, x, y) == brighter(
                    pixel(old(buffer)@, side, x, y),
                    run_intensity_below_at(r, c as int, x, y),
                ),
        decreases c1 - c,
    {
        proof {
            lemma_height_range(r, c as int, limit);
            lemma_height_range(r, c as int + 1, limit);
            lemma_height_step(r, c as int);
            assert(2 * limit * du as int <= 2 * limit * limit) by (nonlinear_arith)
                requires
                    0 < du <= limit,
                    limit > 0,
            ;
        }
        let ghost before = buffer@;
        plot_pair(buffer, size, steep, c, h, q, 1, 1);
        proof {
            assert forall|x: int, y: int| in_canvas(side, x, y) implies #[trigger] pixel(
                buffer@,
                side,
                x,
                y,
            ) == brighter(
                pixel(old(buffer)@, side, x, y),
                run_intensity_below_at(r, c as int + 1, x, y),
            ) by {
                assert(pixel(before, side, x, y) == brighter(
                    pixel(old(buffer)@, side, x, y),
                    run_intensity_below_at(r, c as int, x, y),
                ));
            }
        }
        c = c + 1;
        h = h + step;
    }
}

} // verus!
