use glyph_evolution::constants::RENDER_SIZE;
use glyph_evolution::genotype::{Genotype, Line, Point};
use glyph_evolution::render::{
    blit_bitmap, blit_bitmap_at, create_pixel_buffer, create_pixel_buffer_sized, place_glyph,
    put_pixel, render_genotype, render_genotype_sized, set_pixel, set_pixel_sized,
};
use glyph_evolution::wu::draw_line_wu;

fn line(x0: i32, y0: i32, x1: i32, y1: i32) -> Line {
    Line::new(Point::new(x0, y0), Point::new(x1, y1))
}

fn picture(lines: Vec<Line>, size: u32) -> Vec<u8> {
    render_genotype_sized(&Genotype { lines }, size)
}

#[test]
fn pixel_buffer_starts_black() {
    let buffer = create_pixel_buffer();
    assert_eq!(buffer.len(), 64 * 64);
    assert!(buffer.iter().all(|&p| p == 0));
    assert_eq!(create_pixel_buffer_sized(3), vec![0u8; 9]);
    assert_eq!(create_pixel_buffer_sized(0), Vec::<u8>::new());
}

#[test]
fn set_pixel_writes_row_major() {
    let mut buffer = create_pixel_buffer();
    set_pixel(&mut buffer, 3, 2, 77);
    assert_eq!(buffer[2 * 64 + 3], 77);
    assert_eq!(buffer.iter().filter(|&&p| p != 0).count(), 1);
}

#[test]
fn set_pixel_only_brightens() {
    let mut buffer = create_pixel_buffer();
    set_pixel(&mut buffer, 5, 5, 200);
    set_pixel(&mut buffer, 5, 5, 100);
    assert_eq!(buffer[5 * 64 + 5], 200);
    set_pixel(&mut buffer, 5, 5, 201);
    assert_eq!(buffer[5 * 64 + 5], 201);
}

#[test]
fn set_pixel_drops_what_is_off_the_canvas() {
    let mut buffer = create_pixel_buffer();
    set_pixel(&mut buffer, 64, 0, 255);
    set_pixel(&mut buffer, 0, 64, 255);
    set_pixel(&mut buffer, u32::MAX, u32::MAX, 255);
    assert!(buffer.iter().all(|&p| p == 0));
    let mut short: Vec<u8> = vec![0; 10];
    set_pixel_sized(&mut short, 4, 3, 3, 9);
    set_pixel_sized(&mut short, 4, 1, 2, 9);
    assert_eq!(short, vec![0, 0, 0, 0, 0, 0, 0, 0, 0, 9]);
}

#[test]
fn put_pixel_clips_negative_positions() {
    let mut buffer = create_pixel_buffer_sized(2);
    put_pixel(&mut buffer, 2, -1, 0, 255);
    put_pixel(&mut buffer, 2, 0, -1, 255);
    put_pixel(&mut buffer, 2, 2, 1, 255);
    put_pixel(&mut buffer, 2, 1, 1, 40);
    assert_eq!(buffer, vec![0, 0, 0, 40]);
}

#[test]
fn horizontal_line_on_a_canvas_of_four() {
    let buffer = picture(vec![line(0, 0, 1000, 0)], 4);
    assert_eq!(buffer.len(), 16);
    // only row 0 is lit, from column 0 to column 3; the two end columns are
    // covered by half, the columns between them in full
    assert_eq!(&buffer[0..4], &[128, 255, 255, 128]);
    assert!(buffer[4..].iter().all(|&p| p == 0));
}

#[test]
fn line_direction_does_not_matter() {
    assert_eq!(picture(vec![line(0, 0, 1000, 0)], 4), picture(vec![line(1000, 0, 0, 0)], 4));
    assert_eq!(
        picture(vec![line(120, 40, 900, 730)], 64),
        picture(vec![line(900, 730, 120, 40)], 64)
    );
}

#[test]
fn vertical_line_is_walked_along_y() {
    let buffer = picture(vec![line(0, 0, 0, 1000)], 4);
    let column: Vec<u8> = (0..4).map(|y| buffer[y * 4]).collect();
    assert_eq!(column, vec![128, 255, 255, 128]);
    assert_eq!(buffer.iter().filter(|&&p| p != 0).count(), 4);
}

#[test]
fn diagonal_line_lights_the_diagonal() {
    let buffer = picture(vec![line(0, 0, 1000, 1000)], 4);
    let mut expected = vec![0u8; 16];
    expected[0] = 128;
    expected[5] = 255;
    expected[10] = 255;
    expected[15] = 128;
    assert_eq!(buffer, expected);
}

#[test]
fn line_between_two_rows_is_shared_by_both() {
    // on a canvas of three the height 250 of 1000 lies at row one half
    let buffer = picture(vec![line(0, 250, 1000, 250)], 3);
    assert_eq!(buffer, vec![64, 128, 64, 64, 128, 64, 0, 0, 0]);
}

#[test]
fn sloped_line_weights_follow_its_height() {
    // from (0, 0) to (3, 1.5) on a canvas of four: the slope is one half
    let buffer = picture(vec![line(0, 0, 1000, 500)], 4);
    // column 1 at height 0.5, column 2 at height 1.0
    assert_eq!(buffer[0 * 4 + 1], 128);
    assert_eq!(buffer[1 * 4 + 1], 128);
    assert_eq!(buffer[1 * 4 + 2], 255);
    assert_eq!(buffer[2 * 4 + 2], 0);
    // the ends are covered by half: column 0 at height 0, column 3 at height 1.5
    assert_eq!(buffer[0], 128);
    assert_eq!(buffer[1 * 4 + 3], 64);
    assert_eq!(buffer[2 * 4 + 3], 64);
    assert_eq!(buffer.iter().filter(|&&p| p != 0).count(), 6);
}

#[test]
fn degenerate_line_lights_at_most_one_pixel() {
    for &(x, y) in &[(0, 0), (0, 500), (1000, 1000), (1000, 333), (417, 2), (500, 500)] {
        let buffer = picture(vec![line(x, y, x, y)], 64);
        assert_eq!(buffer.len(), 64 * 64);
        assert!(buffer.iter().filter(|&&p| p != 0).count() <= 1);
    }
}

#[test]
fn canvas_of_one_pixel() {
    let buffer = picture(vec![line(0, 0, 1000, 1000), line(3, 900, 20, 1)], 1);
    assert_eq!(buffer, vec![0]);
}

#[test]
fn overlapping_lines_only_brighten() {
    let a = line(0, 0, 1000, 1000);
    let b = line(0, 1000, 1000, 0);
    let c = line(100, 480, 900, 520);
    let only_a = picture(vec![a], 64);
    let only_b = picture(vec![b], 64);
    let only_c = picture(vec![c], 64);
    let all = picture(vec![a, b, c], 64);
    for i in 0..all.len() {
        assert_eq!(all[i], only_a[i].max(only_b[i]).max(only_c[i]));
    }
    assert_eq!(all, picture(vec![c, a, b], 64));
}

#[test]
fn drawing_a_line_never_darkens() {
    let mut buffer: Vec<u8> = vec![200; 16];
    draw_line_wu(&mut buffer, 4, 0, 0, 3000, 0);
    assert_eq!(&buffer[0..4], &[200, 255, 255, 200]);
    assert!(buffer[4..].iter().all(|&p| p == 200));
}

#[test]
fn render_genotype_uses_the_render_size() {
    let genotype = Genotype { lines: vec![line(0, 0, 1000, 0), line(0, 1000, 1000, 1000)] };
    let buffer = render_genotype(&genotype);
    assert_eq!(buffer.len(), (RENDER_SIZE * RENDER_SIZE) as usize);
    assert_eq!(buffer, render_genotype_sized(&genotype, RENDER_SIZE));
    assert_eq!(buffer[0], 128);
    assert_eq!(buffer[63], 128);
    assert!(buffer[1..63].iter().all(|&p| p == 255));
    assert!(buffer[64..63 * 64].iter().all(|&p| p == 0));
    assert!(buffer[63 * 64 + 1..63 * 64 + 63].iter().all(|&p| p == 255));
}

#[test]
fn empty_genotype_renders_black() {
    assert_eq!(render_genotype(&Genotype { lines: Vec::new() }), create_pixel_buffer());
}

#[test]
fn blit_copies_the_bitmap_where_it_is_brighter() {
    let mut buffer = create_pixel_buffer();
    set_pixel(&mut buffer, 11, 20, 90);
    set_pixel(&mut buffer, 12, 20, 90);
    let bitmap: Vec<u8> = vec![1, 200, 0, 4, 5, 6];
    blit_bitmap(&mut buffer, &bitmap, 10, 20, 3, 2);
    assert_eq!(&buffer[20 * 64 + 10..20 * 64 + 13], &[1, 200, 90]);
    assert_eq!(&buffer[21 * 64 + 10..21 * 64 + 13], &[4, 5, 6]);
    assert_eq!(buffer.iter().filter(|&&p| p != 0).count(), 6);
}

#[test]
fn blit_clips_at_the_canvas_edge() {
    let mut buffer = create_pixel_buffer();
    let bitmap: Vec<u8> = vec![1, 2, 3, 4];
    blit_bitmap(&mut buffer, &bitmap, 63, 63, 2, 2);
    assert_eq!(buffer[63 * 64 + 63], 1);
    assert_eq!(buffer.iter().filter(|&&p| p != 0).count(), 1);
    let mut small = create_pixel_buffer_sized(2);
    blit_bitmap_at(&mut small, 2, &bitmap, -1, -1, 2, 2);
    assert_eq!(small, vec![4, 0, 0, 0]);
}

#[test]
fn glyph_is_centred_and_stands_on_the_baseline() {
    // 4 by 2 bitmap, bounding box starting at the pen and at the baseline
    let bitmap: Vec<u8> = vec![10, 20, 30, 40, 50, 60, 70, 80];
    let buffer = place_glyph(&bitmap, 4, 2, 0, 0, 40);
    assert_eq!(buffer.len(), 64 * 64);
    // left edge at (64 - 4) / 2 = 30, top edge at 40 - 2 = 38
    assert_eq!(&buffer[38 * 64 + 30..38 * 64 + 34], &[10, 20, 30, 40]);
    assert_eq!(&buffer[39 * 64 + 30..39 * 64 + 34], &[50, 60, 70, 80]);
    assert_eq!(buffer.iter().filter(|&&p| p != 0).count(), 8);
}

#[test]
fn glyph_offsets_move_the_box() {
    let bitmap: Vec<u8> = vec![9];
    // left edge at (64 - 1) / 2 + 2 = 33, top edge at 10 - (-3 + 1) = 12
    let buffer = place_glyph(&bitmap, 1, 1, 2, -3, 10);
    assert_eq!(buffer[12 * 64 + 33], 9);
    assert_eq!(buffer.iter().filter(|&&p| p != 0).count(), 1);
}

#[test]
fn glyph_wider_than_the_canvas_is_clipped() {
    let bitmap: Vec<u8> = vec![7; 67];
    // left edge at (64 - 67) / 2 = -1, rounded toward zero
    let buffer = place_glyph(&bitmap, 67, 1, 0, 0, 1);
    assert!(buffer[0..64].iter().all(|&p| p == 7));
    assert!(buffer[64..].iter().all(|&p| p == 0));
}
