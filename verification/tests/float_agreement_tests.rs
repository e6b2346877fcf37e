use glyph_evolution::genotype::{Genotype, Line, Point};
use glyph_evolution::render::render_genotype_sized;
use rand::rngs::StdRng;
use rand::SeedableRng;

// The same scan conversion in single-precision floating point, to hold the
// exact rasterizer against.

fn brighten(buffer: &mut Vec<u8>, size: i32, x: i32, y: i32, fraction: f32) {
    if x >= 0 && x < size && y >= 0 && y < size {
        let value = (fraction * 255.0).round() as u8;
        let index = (y * size + x) as usize;
        buffer[index] = buffer[index].max(value);
    }
}

fn fpart(x: f32) -> f32 {
    x - x.floor()
}

fn rfpart(x: f32) -> f32 {
    1.0 - fpart(x)
}

fn float_line(buffer: &mut Vec<u8>, size: i32, mut x0: f32, mut y0: f32, mut x1: f32, mut y1: f32) {
    let steep = (y1 - y0).abs() > (x1 - x0).abs();
    if steep {
        std::mem::swap(&mut x0, &mut y0);
        std::mem::swap(&mut x1, &mut y1);
    }
    if x0 > x1 {
        std::mem::swap(&mut x0, &mut x1);
        std::mem::swap(&mut y0, &mut y1);
    }
    let dx = x1 - x0;
    let dy = y1 - y0;
    if dx == 0.0 {
        return;
    }
    let gradient = dy / dx;
    let ends = [(x0, y0), (x1, y1)];
    let mut columns = [0i32; 2];
    let mut first_height = 0.0f32;
    for (k, &(x, y)) in ends.iter().enumerate() {
        let x_end = x.round();
        let y_end = y + gradient * (x_end - x);
        let gap = rfpart(x + 0.5);
        let col = x_end as i32;
        let row = y_end.floor() as i32;
        if steep {
            brighten(buffer, size, row, col, rfpart(y_end) * gap);
            brighten(buffer, size, row + 1, col, fpart(y_end) * gap);
        } else {
            brighten(buffer, size, col, row, rfpart(y_end) * gap);
            brighten(buffer, size, col, row + 1, fpart(y_end) * gap);
        }
        columns[k] = col;
        if k == 0 {
            first_height = y_end;
        }
    }
    let mut height = first_height + gradient;
    for col in (columns[0] + 1)..columns[1] {
        let row = height.floor() as i32;
        if steep {
            brighten(buffer, size, row, col, rfpart(height));
            brighten(buffer, size, row + 1, col, fpart(height));
        } else {
            brighten(buffer, size, col, row, rfpart(height));
            brighten(buffer, size, col, row + 1, fpart(height));
        }
        height += gradient;
    }
}

fn float_picture(lines: &Vec<Line>, size: u32) -> Vec<u8> {
    let mut buffer = vec![0u8; (size * size) as usize];
    let scale = |c: i32| c as f32 / 1000.0 * (size - 1) as f32;
    for l in lines {
        float_line(
            &mut buffer,
            size as i32,
            scale(l.start.x),
            scale(l.start.y),
            scale(l.end.x),
            scale(l.end.y),
        );
    }
    buffer
}

/// Number of pixels that differ at all, and the largest difference.
fn difference(a: &Vec<u8>, b: &Vec<u8>) -> (usize, i32) {
    assert_eq!(a.len(), b.len());
    let mut count = 0;
    let mut largest = 0;
    for (x, y) in a.iter().zip(b.iter()) {
        let d = (*x as i32 - *y as i32).abs();
        if d != 0 {
            count += 1;
        }
        largest = largest.max(d);
    }
    (count, largest)
}

#[test]
fn exact_lines_agree_with_floating_point_on_round_coordinates() {
    // every coordinate lands on a whole or a half pixel of a canvas of five
    let grid = [0, 125, 250, 375, 500, 625, 750, 875, 1000];
    for &x0 in &grid {
        for &y0 in &grid {
            for &x1 in &grid {
                for &y1 in &[0, 250, 500, 1000] {
                    let lines = vec![Line::new(Point::new(x0, y0), Point::new(x1, y1))];
                    let exact = render_genotype_sized(&Genotype { lines: lines.clone() }, 5);
                    let float = float_picture(&lines, 5);
                    let (_, largest) = difference(&exact, &float);
                    assert!(largest <= 1, "{:?}: {:?} against {:?}", lines, exact, float);
                }
            }
        }
    }
}

#[test]
fn exact_pictures_stay_close_to_floating_point() {
    let mut rng = StdRng::seed_from_u64(40);
    let mut pixels = 0;
    let mut differing = 0;
    for _ in 0..200 {
        let genotype = Genotype::new_random(&mut rng);
        let exact = render_genotype_sized(&genotype, 64);
        let float = float_picture(&genotype.lines, 64);
        let (count, _) = difference(&exact, &float);
        pixels += exact.len();
        differing += count;
    }
    // rounding in single precision moves a pixel now and then, never many
    assert!(differing * 1000 <= pixels, "{} of {} pixels differ", differing, pixels);
}
