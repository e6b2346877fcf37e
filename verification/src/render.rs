//! Pixel buffers: square, single channel, row-major, written by brightening.

use vstd::prelude::*;
use vstd::arithmetic::div_mod::lemma_fundamental_div_mod_converse;
use vstd::arithmetic::div_mod::lemma_fundamental_div_mod;
use crate::constants::{MAX_COORD, MAX_RENDER_SIZE, RENDER_SIZE};
use crate::fitness::{Mse, MAX_BUFFER_LEN, squared_error, sum_squared_error};
use crate::genotype::{Genotype, Line, lines_in_bounds};
use crate::wu::{draw_line_wu, line_intensity, lemma_line_intensity_range, on_grid};

verus! {

/// Intensity samples of a square canvas, row by row, 0 for black.
pub type PixelBuffer = Vec<u8>;

/// The larger of two intensities.
pub open spec fn brighter(a: int, b: int) -> int {
    if a >= b {
        a
    } else {
        b
    }
}

/// The pixel `(x, y)` lies on a canvas of side `size`.
pub open spec fn in_canvas(size: int, x: int, y: int) -> bool {
    0 <= x < size && 0 <= y < size
}

/// Position of the pixel `(x, y)` in a row-major buffer of side `size`.
pub open spec fn pixel_index(size: int, x: int, y: int) -> int {
    y * size + x
}

/// Value of the pixel `(x, y)` in a row-major buffer of side `size`.
pub open spec fn pixel(buffer: Seq<u8>, size: int, x: int, y: int) -> int {
    buffer[pixel_index(size, x, y)] as int
}

/// The buffer after brightening the pixel `(x, y)` to at least `color`.
/// A pixel off the canvas, or past the end of the buffer, is dropped.
pub open spec fn with_pixel(buffer: Seq<u8>, size: int, x: int, y: int, color: u8) -> Seq<u8> {
    if in_canvas(size, x, y) && pixel_index(size, x, y) < buffer.len() {
        let i = pixel_index(size, x, y);
        if color > buffer[i] {
            buffer.update(i, color)
        } else {
            buffer
        }
    } else {
        buffer
    }
}

/// Distinct pixels of a canvas have distinct positions, all below `size * size`.
pub proof fn lemma_pixel_index(size: int, x: int, y: int)
    requires
        in_canvas(size, x, y),
    ensures
        0 <= pixel_index(size, x, y) < size * size,
        pixel_index(size, x, y) % size == x,
        pixel_index(size, x, y) / size == y,
{
    lemma_fundamental_div_mod_converse(y * size + x, size, y, x);
    assert(y * size + x < size * size) by (nonlinear_arith)
        requires
            0 <= x < size,
            0 <= y < size,
    ;
    assert(0 <= y * size + x) by (nonlinear_arith)
        requires
            0 <= x < size,
            0 <= y < size,
    ;
}

/// Two pixels of a canvas at the same position are the same pixel.
pub proof fn lemma_pixel_index_injective(size: int, x: int, y: int, x2: int, y2: int)
    requires
        in_canvas(size, x, y),
        in_canvas(size, x2, y2),
        pixel_index(size, x, y) == pixel_index(size, x2, y2),
    ensures
        x == x2,
        y == y2,
{
    lemma_pixel_index(size, x, y);
    lemma_pixel_index(size, x2, y2);
}

/// A black buffer of `size * size` pixels.
pub fn create_pixel_buffer_sized(size: u32) -> (buffer: PixelBuffer)
    requires
        size as int * size as int <= usize::MAX,
    ensures
        buffer@.len() == size as int * size as int,
        forall|i: int| 0 <= i < buffer@.len() ==> buffer@[i] == 0,
{
    let side: usize = size as usize;
    assert(side * side == size as int * size as int);
    let count: usize = side * side;
    let mut buffer: Vec<u8> = Vec::new();
    let mut i: usize = 0;
    while i < count
        invariant
            i <= count,
            buffer@.len() == i,
            forall|j: int| 0 <= j < i ==> buffer@[j] == 0,
        decreases count - i,
    {
        buffer.push(0u8);
        i = i + 1;
    }
    buffer
}

/// A black buffer of `RENDER_SIZE * RENDER_SIZE` pixels.
pub fn create_pixel_buffer() -> (buffer: PixelBuffer)
    ensures
        buffer@.len() == RENDER_SIZE * RENDER_SIZE,
        forall|i: int| 0 <= i < buffer@.len() ==> buffer@[i] == 0,
{
    create_pixel_buffer_sized(RENDER_SIZE)
}

/// Brightens the pixel `(x, y)` of a canvas of side `size` to at least
/// `color`: the pixel keeps the larger of its value and `color`. A pixel off
/// the canvas is dropped.
pub fn set_pixel_sized(buffer: &mut PixelBuffer, size: u32, x: u32, y: u32, color: u8)
    ensures
        final(buffer)@ == with_pixel(old(buffer)@, size as int, x as int, y as int, color),
{
    if x < size && y < size {
        assert(y as int * size as int + x as int <= u64::MAX) by (nonlinear_arith)
            requires
                0 <= x < size,
                0 <= y < size,
                size <= u32::MAX,
        ;
        let index: u64 = (y as u64) * (size as u64) + (x as u64);
        if index < buffer.len() as u64 {
            let i: usize = index as usize;
            if color > buffer[i] {
                buffer[i] = color;
            }
        }
    }
}

/// Brightens the pixel `(x, y)` of a canvas of side `RENDER_SIZE` to at least
/// `color`. A pixel off the canvas is dropped.
pub fn set_pixel(buffer: &mut PixelBuffer, x: u32, y: u32, color: u8)
    ensures
        final(buffer)@ == with_pixel(old(buffer)@, RENDER_SIZE as int, x as int, y as int, color),
{
    set_pixel_sized(buffer, RENDER_SIZE, x, y, color)
}


/// Intensity at the pixel `(x, y)` of a single dot of `color` at `(px, py)`.
pub open spec fn dot_intensity(px: int, py: int, color: int, x: int, y: int) -> int {
    if x == px && y == py {
        color
    } else {
        0
    }
}

/// Brightens the pixel `(px, py)` of a full canvas of side `size` to at least
/// `color`, and leaves every other pixel as it was; a pixel off the canvas
/// is dropped.
pub fn put_pixel(buffer: &mut PixelBuffer, size: u32, px: i64, py: i64, color: u8)
    requires
        old(buffer)@.len() == size as int * size as int,
    ensures
        final(buffer)@.len() == old(buffer)@.len(),
        forall|x: int, y: int|
            in_canvas(size as int, x, y) ==> #[trigger] pixel(final(buffer)@, size as int, x, y)
                == brighter(
                pixel(old(buffer)@, size as int, x, y),
                dot_intensity(px as int, py as int, color as int, x, y),
            ),
{
    if 0 <= px && px < size as i64 && 0 <= py && py < size as i64 {
        set_pixel_sized(buffer, size, px as u32, py as u32, color);
        proof {
            let side = size as int;
            lemma_pixel_index(side, px as int, py as int);
            assert forall|x: int, y: int| in_canvas(side, x, y) implies #[trigger] pixel(
                buffer@,
                side,
                x,
                y,
            ) == brighter(
                pixel(old(buffer)@, side, x, y),
                dot_intensity(px as int, py as int, color as int, x, y),
            ) by {
                lemma_pixel_index(side, x, y);
                if pixel_index(side, x, y) == pixel_index(side, px as int, py as int) {
                    lemma_pixel_index_injective(side, x, y, px as int, py as int);
                }
            }
        }
    }
}


/// A genotype coordinate mapped onto a canvas of side `size`, as a numerator
/// over `MAX_COORD`: the coordinate `MAX_COORD` lands on pixel `size - 1`.
pub open spec fn scale_coord(coord: int, size: int) -> int {
    coord * (size - 1)
}

/// Intensity that one line of a genotype gives the pixel `(x, y)` of a
/// canvas of side `size`.
pub open spec fn scaled_line_intensity(line: Line, size: int, x: int, y: int) -> int {
    line_intensity(
        scale_coord(line.start.x as int, size),
        scale_coord(line.start.y as int, size),
        scale_coord(line.end.x as int, size),
        scale_coord(line.end.y as int, size),
        x,
        y,
    )
}

/// Intensity of the pixel `(x, y)` once all the lines are drawn on black:
/// the largest intensity that any of them gives it.
pub open spec fn lines_intensity(lines: Seq<Line>, size: int, x: int, y: int) -> int
    decreases lines.len(),
{
    if lines.len() == 0 {
        0
    } else {
        brighter(
            lines_intensity(lines.drop_last(), size, x, y),
            scaled_line_intensity(lines.last(), size, x, y),
        )
    }
}

/// The picture of the lines on a canvas of side `size`, row by row.
pub open spec fn rendered(lines: Seq<Line>, size: int) -> Seq<u8> {
    Seq::new(
        (size * size) as nat,
        |i: int| lines_intensity(lines, size, i % size, i / size) as u8,
    )
}

/// Lines drawn on black give every pixel an intensity between 0 and 255.
pub proof fn lemma_lines_intensity_range(lines: Seq<Line>, size: int, x: int, y: int)
    ensures
        0 <= lines_intensity(lines, size, x, y) <= 255,
    decreases lines.len(),
{
    if lines.len() > 0 {
        lemma_lines_intensity_range(lines.drop_last(), size, x, y);
        let l = lines.last();
        lemma_line_intensity_range(
            scale_coord(l.start.x as int, size),
            scale_coord(l.start.y as int, size),
            scale_coord(l.end.x as int, size),
            scale_coord(l.end.y as int, size),
            x,
            y,
        );
    }
}

/// A line whose two ends coincide lights at most one pixel; as it has no
/// length, it lights none.
pub proof fn lemma_degenerate_line(line: Line, size: int)
    requires
        line.start == line.end,
    ensures
        forall|x: int, y: int| #[trigger] scaled_line_intensity(line, size, x, y) == 0,
        forall|x: int, y: int, x2: int, y2: int|
            #[trigger] scaled_line_intensity(line, size, x, y) > 0 && #[trigger] scaled_line_intensity(
                line,
                size,
                x2,
                y2,
            ) > 0 ==> x == x2 && y == y2,
{
}

/// One more line never darkens a pixel, and no pixel exceeds 255.
pub proof fn lemma_more_lines_only_brighten(lines: Seq<Line>, extra: Line, size: int, x: int, y: int)
    ensures
        lines_intensity(lines, size, x, y) <= lines_intensity(lines.push(extra), size, x, y) <= 255,
{
    assert(lines.push(extra).drop_last() == lines);
    lemma_lines_intensity_range(lines.push(extra), size, x, y);
}

/// A pixel of the picture holds the largest intensity that any one line
/// gives it, so the order of the lines does not matter to it.
pub proof fn lemma_lines_intensity_is_largest(lines: Seq<Line>, size: int, x: int, y: int)
    ensures
        forall|i: int|
            0 <= i < lines.len() ==> scaled_line_intensity(#[trigger] lines[i], size, x, y)
                <= lines_intensity(lines, size, x, y),
        lines_intensity(lines, size, x, y) == 0 || exists|i: int|
            0 <= i < lines.len() && lines_intensity(lines, size, x, y) == scaled_line_intensity(
                #[trigger] lines[i],
                size,
                x,
                y,
            ),
    decreases lines.len(),
{
    if lines.len() > 0 {
        let rest = lines.drop_last();
        lemma_lines_intensity_is_largest(rest, size, x, y);
        assert forall|i: int| 0 <= i < lines.len() implies scaled_line_intensity(
            #[trigger] lines[i],
            size,
            x,
            y,
        ) <= lines_intensity(lines, size, x, y) by {
            if i < rest.len() {
                assert(rest[i] == lines[i]);
            }
        }
        if lines_intensity(lines, size, x, y) != 0 {
            if lines_intensity(lines, size, x, y) == scaled_line_intensity(lines.last(), size, x, y) {
                assert(lines[lines.len() - 1] == lines.last());
            } else {
                let i = choose|i: int|
                    0 <= i < rest.len() && lines_intensity(rest, size, x, y)
                        == scaled_line_intensity(#[trigger] rest[i], size, x, y);
                assert(rest[i] == lines[i]);
            }
        }
    }
}

/// Every position of a full canvas is the position of one of its pixels.
pub proof fn lemma_index_is_pixel(size: int, i: int)
    requires
        0 < size,
        0 <= i < size * size,
    ensures
        in_canvas(size, i % size, i / size),
        pixel_index(size, i % size, i / size) == i,
{
    lemma_fundamental_div_mod(i, size);
    assert(0 <= i % size < size) by (nonlinear_arith)
        requires
            size > 0,
    ;
    assert(0 <= i / size < size) by (nonlinear_arith)
        requires
            i == size * (i / size) + i % size,
            0 <= i % size < size,
            0 <= i < size * size,
            size > 0,
    ;
    assert((i / size) * size == size * (i / size)) by (nonlinear_arith);
}

/// The pixel `(x, y)` of the picture of the lines holds their intensity there.
pub proof fn lemma_rendered_pixel(lines: Seq<Line>, size: int, x: int, y: int)
    requires
        in_canvas(size, x, y),
    ensures
        pixel(rendered(lines, size), size, x, y) == lines_intensity(lines, size, x, y),
{
    lemma_pixel_index(size, x, y);
    lemma_lines_intensity_range(lines, size, x, y);
}

/// A genotype coordinate mapped onto a canvas of side `size`.
fn scale(coord: i32, size: u32) -> (scaled: i64)
    requires
        0 <= coord <= MAX_COORD,
        1 <= size <= MAX_RENDER_SIZE,
    ensures
        scaled == scale_coord(coord as int, size as int),
        on_grid(size as int, scaled as int),
{
    assert(0 <= coord as int * (size as int - 1) <= (size as int - 1) * MAX_COORD as int)
        by (nonlinear_arith)
        requires
            0 <= coord <= MAX_COORD,
            1 <= size,
    ;
    (coord as i64) * (size as i64 - 1)
}

/// Draws the lines of a genotype, in order, on a black canvas of side
/// `size`. Each pixel ends with the largest intensity any line gives it.
pub fn render_genotype_sized(genotype: &Genotype, size: u32) -> (buffer: PixelBuffer)
    requires
        1 <= size <= MAX_RENDER_SIZE,
        lines_in_bounds(genotype@),
    ensures
        buffer@ == rendered(genotype@, size as int),
{
    let ghost side = size as int;
    assert(side * side <= usize::MAX) by (nonlinear_arith)
        requires
            1 <= side <= 65535,
            usize::MAX >= 0xffff_ffff,
    ;
    let mut buffer = create_pixel_buffer_sized(size);
    proof {
        assert forall|x: int, y: int| in_canvas(side, x, y) implies #[trigger] pixel(
            buffer@,
            side,
            x,
            y,
        ) == lines_intensity(genotype@.subrange(0, 0), side, x, y) by {
            lemma_pixel_index(side, x, y);
        }
    }
    let mut i: usize = 0;
    while i < genotype.lines.len()
        invariant
            1 <= size <= MAX_RENDER_SIZE,
            side == size as int,
            lines_in_bounds(genotype@),
            i <= genotype.lines.len(),
            buffer@.len() == side * side,
            forall|x: int, y: int|
                in_canvas(side, x, y) ==> #[trigger] pixel(buffer@, side, x, y) == lines_intensity(
                    genotype@.subrange(0, i as int),
                    side,
                    x,
                    y,
                ),
        decreases genotype.lines.len() - i,
    {
        let line = genotype.lines[i];
        assert(line == genotype@[i as int]);
        assert(line.in_bounds());
        let x0 = scale(line.start.x, size);
        let y0 = scale(line.start.y, size);
        let x1 = scale(line.end.x, size);
        let y1 = scale(line.end.y, size);
        let ghost before = buffer@;
        draw_line_wu(&mut buffer, size, x0, y0, x1, y1);
        proof {
            let prefix = genotype@.subrange(0, i as int + 1);
            assert(prefix.drop_last() == genotype@.subrange(0, i as int));
            assert(prefix.last() == line);
            assert forall|x: int, y: int| in_canvas(side, x, y) implies #[trigger] pixel(
                buffer@,
                side,
                x,
                y,
            ) == lines_intensity(prefix, side, x, y) by {
                assert(pixel(before, side, x, y) == lines_intensity(
                    genotype@.subrange(0, i as int),
                    side,
                    x,
                    y,
                ));
            }
        }
        i = i + 1;
    }
    proof {
        assert(genotype@.subrange(0, i as int) == genotype@);
        assert forall|k: int| 0 <= k < side * side implies buffer@[k] == rendered(
            genotype@,
            side,
        )[k] by {
            lemma_index_is_pixel(side, k);
            lemma_lines_intensity_range(genotype@, side, k % side, k / side);
            assert(pixel(buffer@, side, k % side, k / side) == buffer@[k]);
        }
        assert(buffer@ =~= rendered(genotype@, side));
    }
    buffer
}

/// Draws the lines of a genotype, in order, on a black canvas of side
/// `RENDER_SIZE`.
pub fn render_genotype(genotype: &Genotype) -> (buffer: PixelBuffer)
    requires
        lines_in_bounds(genotype@),
    ensures
        buffer@ == rendered(genotype@, RENDER_SIZE as int),
{
    render_genotype_sized(genotype, RENDER_SIZE)
}


/// Mean squared error between two buffers of one length: the sum of the
/// squared differences of their pixels, over the number of pixels.
pub fn calculate_mse(buffer_a: &PixelBuffer, buffer_b: &PixelBuffer) -> (mse: Mse)
    requires
        buffer_a@.len() == buffer_b@.len(),
        buffer_a@.len() <= MAX_BUFFER_LEN,
    ensures
        mse.sum == sum_squared_error(buffer_a@, buffer_b@),
        mse.count == buffer_a@.len(),
{
    let mut sum: u64 = 0;
    let mut i: usize = 0;
    while i < buffer_a.len()
        invariant
            buffer_a@.len() == buffer_b@.len(),
            buffer_a@.len() <= MAX_BUFFER_LEN,
            i <= buffer_a@.len(),
            sum == sum_squared_error(buffer_a@.subrange(0, i as int), buffer_b@.subrange(0, i as int)),
            sum <= 65025 * i,
        decreases buffer_a.len() - i,
    {
        let a: u8 = buffer_a[i];
        let b: u8 = buffer_b[i];
        let diff: u64 = if a >= b { (a - b) as u64 } else { (b - a) as u64 };
        proof {
            let pa = buffer_a@.subrange(0, i as int + 1);
            let pb = buffer_b@.subrange(0, i as int + 1);
            assert(pa.drop_last() == buffer_a@.subrange(0, i as int));
            assert(pb.drop_last() == buffer_b@.subrange(0, i as int));
            assert(pa.last() == a && pb.last() == b);
            assert(diff * diff == squared_error(a, b) && diff * diff <= 65025) by (nonlinear_arith)
                requires
                    diff == (if a >= b { a - b } else { b - a }),
                    squared_error(a, b) == ((a as int - b as int) * (a as int - b as int)) as nat,
                    0 <= a <= 255,
                    0 <= b <= 255,
            ;
        }
        sum = sum + diff * diff;
        i = i + 1;
    }
    proof {
        assert(buffer_a@.subrange(0, i as int) == buffer_a@);
        assert(buffer_b@.subrange(0, i as int) == buffer_b@);
    }
    Mse { sum, count: buffer_a.len() }
}


/// Intensity that a bitmap of `width` by `height` pixels, its top left
/// corner at `(ox, oy)`, gives the canvas pixel `(x, y)`.
pub open spec fn bitmap_intensity(
    bitmap: Seq<u8>,
    ox: int,
    oy: int,
    width: int,
    height: int,
    x: int,
    y: int,
) -> int {
    if ox <= x < ox + width && oy <= y < oy + height {
        bitmap[(y - oy) * width + (x - ox)] as int
    } else {
        0
    }
}

/// `bitmap_intensity` of the first `rows` rows of the bitmap and of the
/// first `cols` pixels of the row after them.
pub open spec fn bitmap_intensity_upto(
    bitmap: Seq<u8>,
    ox: int,
    oy: int,
    width: int,
    rows: int,
    cols: int,
    x: int,
    y: int,
) -> int {
    if ox <= x < ox + width && (oy <= y < oy + rows || (y == oy + rows && x < ox + cols)) {
        bitmap[(y - oy) * width + (x - ox)] as int
    } else {
        0
    }
}

/// Copies a bitmap of `width` by `height` pixels onto a canvas of side
/// `size`, its top left corner at `(ox, oy)`. Every canvas pixel ends as the
/// brighter of what it held and what the bitmap holds there; the part of the
/// bitmap off the canvas is dropped.
pub fn blit_bitmap_at(
    buffer: &mut PixelBuffer,
    size: u32,
    bitmap: &Vec<u8>,
    ox: i64,
    oy: i64,
    width: u32,
    height: u32,
)
    requires
        old(buffer)@.len() == size as int * size as int,
        bitmap@.len() >= width as int * height as int,
        -0x100_0000_0000 <= ox <= 0x100_0000_0000,
        -0x100_0000_0000 <= oy <= 0x100_0000_0000,
    ensures
        final(buffer)@.len() == old(buffer)@.len(),
        forall|x: int, y: int|
            in_canvas(size as int, x, y) ==> #[trigger] pixel(final(buffer)@, size as int, x, y)
                == brighter(
                pixel(old(buffer)@, size as int, x, y),
                bitmap_intensity(bitmap@, ox as int, oy as int, width as int, height as int, x, y),
            ),
{
    let ghost side = size as int;
    let mut j: u32 = 0;
    while j < height
        invariant
            j <= height,
            side == size as int,
            buffer@.len() == old(buffer)@.len(),
            buffer@.len() == side * side,
            bitmap@.len() >= width as int * height as int,
            -0x100_0000_0000 <= ox <= 0x100_0000_0000,
            -0x100_0000_0000 <= oy <= 0x100_0000_0000,
            forall|x: int, y: int|
                in_canvas(side, x, y) ==> #[trigger] pixel(buffer@, side, x, y) == brighter(
                    pixel(old(buffer)@, side, x, y),
                    bitmap_intensity_upto(bitmap@, ox as int, oy as int, width as int, j as int, 0, x, y),
                ),
        decreases height - j,
    {
        let mut i: u32 = 0;
        while i < width
            invariant
                i <= width,
                j < height,
                side == size as int,
                buffer@.len() == old(buffer)@.len(),
                buffer@.len() == side * side,
                bitmap@.len() >= width as int * height as int,
                -0x100_0000_0000 <= ox <= 0x100_0000_0000,
                -0x100_0000_0000 <= oy <= 0x100_0000_0000,
                forall|x: int, y: int|
                    in_canvas(side, x, y) ==> #[trigger] pixel(buffer@, side, x, y) == brighter(
                        pixel(old(buffer)@, side, x, y),
                        bitmap_intensity_upto(
                            bitmap@,
                            ox as int,
                            oy as int,
                            width as int,
                            j as int,
                            i as int,
                            x,
                            y,
                        ),
                    ),
            decreases width - i,
        {
            assert(0 <= (j as int) * (width as int) + (i as int) && (j as int) * (width as int) + (i as int) < (width as int) * (height as int))
                by (nonlinear_arith)
                requires
                    0 <= i < width,
                    0 <= j < height,
            ;
            assert(0 <= (j as int) * (width as int)) by (nonlinear_arith)
                requires
                    0 <= width,
                    0 <= j,
            ;
            assert(bitmap@.len() == bitmap.len() && bitmap.len() <= usize::MAX);
            let at: usize = (j as usize) * (width as usize) + (i as usize);
            let value: u8 = bitmap[at];
            let ghost before = buffer@;
            if value > 0 {
                put_pixel(buffer, size, ox + i as i64, oy + j as i64, value);
            }
            proof {
                assert forall|x: int, y: int| in_canvas(side, x, y) implies #[trigger] pixel(
                    buffer@,
                    side,
                    x,
                    y,
                ) == brighter(
                    pixel(old(buffer)@, side, x, y),
                    bitmap_intensity_upto(
                        bitmap@,
                        ox as int,
                        oy as int,
                        width as int,
                        j as int,
                        i as int + 1,
                        x,
                        y,
                    ),
                ) by {
                    assert(pixel(before, side, x, y) == brighter(
                        pixel(old(buffer)@, side, x, y),
                        bitmap_intensity_upto(
                            bitmap@,
                            ox as int,
                            oy as int,
                            width as int,
                            j as int,
                            i as int,
                            x,
                            y,
                        ),
                    ));
                    if x == ox + i && y == oy + j {
                        assert((y - oy) * width + (x - ox) == j as int * width as int + i as int);
                    }
                }
            }
            i = i + 1;
        }
        j = j + 1;
    }
}

/// Copies a bitmap of `width` by `height` pixels onto a canvas of side
/// `RENDER_SIZE`, its top left corner at `(x, y)`. Every canvas pixel ends as
/// the brighter of what it held and what the bitmap holds there.
pub fn blit_bitmap(buffer: &mut PixelBuffer, bitmap: &Vec<u8>, x: u32, y: u32, width: u32, height: u32)
    requires
        old(buffer)@.len() == RENDER_SIZE * RENDER_SIZE,
        bitmap@.len() >= width as int * height as int,
    ensures
        final(buffer)@.len() == old(buffer)@.len(),
        forall|px: int, py: int|
            in_canvas(RENDER_SIZE as int, px, py) ==> #[trigger] pixel(
                final(buffer)@,
                RENDER_SIZE as int,
                px,
                py,
            ) == brighter(
                pixel(old(buffer)@, RENDER_SIZE as int, px, py),
                bitmap_intensity(bitmap@, x as int, y as int, width as int, height as int, px, py),
            ),
{
    blit_bitmap_at(buffer, RENDER_SIZE, bitmap, x as i64, y as i64, width, height)
}

/// Half of `a`, rounded toward zero.
pub open spec fn half_toward_zero(a: int) -> int {
    if a >= 0 {
        a / 2
    } else {
        -((-a) / 2)
    }
}

/// Column of the left edge of a glyph `width` pixels wide whose bounding box
/// starts `xmin` pixels after the pen: the box is centred on the canvas.
pub open spec fn glyph_left(width: int, xmin: int) -> int {
    half_toward_zero(RENDER_SIZE - width) + xmin
}

/// Row of the top edge of a glyph `height` pixels high whose bounding box
/// starts `ymin` pixels above the baseline, the baseline lying on row
/// `baseline`.
pub open spec fn glyph_top(height: int, ymin: int, baseline: int) -> int {
    baseline - (ymin + height)
}

/// The target buffer for a rasterized glyph: its coverage bitmap of `width`
/// by `height` pixels placed on a black canvas of side `RENDER_SIZE`,
/// centred from side to side and standing on the row `baseline`.
pub fn place_glyph(bitmap: &Vec<u8>, width: u32, height: u32, xmin: i32, ymin: i32, baseline: u32) -> (buffer:
    PixelBuffer)
    requires
        bitmap@.len() >= width as int * height as int,
    ensures
        buffer@.len() == RENDER_SIZE * RENDER_SIZE,
        forall|x: int, y: int|
            in_canvas(RENDER_SIZE as int, x, y) ==> #[trigger] pixel(buffer@, RENDER_SIZE as int, x, y)
                == bitmap_intensity(
                bitmap@,
                glyph_left(width as int, xmin as int),
                glyph_top(height as int, ymin as int, baseline as int),
                width as int,
                height as int,
                x,
                y,
            ),
{
    let mut buffer = create_pixel_buffer();
    let slack: i64 = RENDER_SIZE as i64 - width as i64;
    let half: i64 = if slack >= 0 { slack / 2 } else { -((-slack) / 2) };
    let left: i64 = half + xmin as i64;
    let top: i64 = baseline as i64 - (ymin as i64 + height as i64);
    proof {
        assert forall|x: int, y: int| in_canvas(RENDER_SIZE as int, x, y) implies pixel(
            buffer@,
            RENDER_SIZE as int,
            x,
            y,
        ) == 0 by {
            lemma_pixel_index(RENDER_SIZE as int, x, y);
        }
    }
    let ghost black = buffer@;
    blit_bitmap_at(&mut buffer, RENDER_SIZE, bitmap, left, top, width, height);
    proof {
        assert forall|x: int, y: int| in_canvas(RENDER_SIZE as int, x, y) implies #[trigger] pixel(
            buffer@,
            RENDER_SIZE as int,
            x,
            y,
        ) == bitmap_intensity(
            bitmap@,
            left as int,
            top as int,
            width as int,
            height as int,
            x,
            y,
        ) by {
            assert(pixel(black, RENDER_SIZE as int, x, y) == 0);
        }
    }
    buffer
}

} // verus!
