use tg_rcore::display::{self, Display};
use tg_rcore::snake;
use tg_rcore::tangram;

fn px(d: &Display, x: usize, y: usize) -> [u8; 4] {
    let o = (y * d.width() + x) * 4;
    let f = d.frame();
    [f[o], f[o + 1], f[o + 2], f[o + 3]]
}

#[test]
fn display_starts_blank_and_sets_pixels() {
    let mut d = Display::new(8, 4, 1, 2);
    assert_eq!((d.width(), d.height(), d.offset_x(), d.offset_y()), (8, 4, 1, 2));
    assert_eq!(d.frame().len(), 8 * 4 * 4);
    assert_eq!(px(&d, 3, 2), [0, 0, 0, 0]);
    d.set_pixel(3, 2, (10, 20, 30));
    assert_eq!(px(&d, 3, 2), [30, 20, 10, 255]);
    // outside the frame nothing happens
    d.set_pixel(8, 0, (1, 1, 1));
    d.set_pixel(0, 4, (1, 1, 1));
    assert_eq!(d.frame().iter().filter(|b| **b != 0).count(), 4);
}

#[test]
fn display_rectangles_clip_and_inset() {
    let mut d = Display::new(6, 6, 0, 0);
    d.fill_rect(4, 4, 5, 5, (1, 2, 3));
    assert_eq!(px(&d, 5, 5), [3, 2, 1, 255]);
    assert_eq!(px(&d, 3, 5), [0, 0, 0, 0]);
    let mut e = Display::new(6, 6, 0, 0);
    e.draw_rect(0, 0, 4, 4, (9, 9, 9), 1);
    assert_eq!(px(&e, 0, 0), [0, 0, 0, 0]);
    assert_eq!(px(&e, 1, 1), [9, 9, 9, 255]);
    assert_eq!(px(&e, 2, 2), [9, 9, 9, 255]);
    assert_eq!(px(&e, 3, 3), [0, 0, 0, 0]);
}

#[test]
fn display_glyphs_and_text() {
    assert_eq!(display::glyph(b'1'), Some([0, 1, 0, 1, 1, 0, 0, 1, 0, 0, 1, 0, 1, 1, 1]));
    assert_eq!(display::glyph(b'a'), None);
    let mut d = Display::new(20, 10, 0, 0);
    d.draw_char(0, 0, b'1', (5, 5, 5), 1);
    assert_eq!(px(&d, 1, 0), [5, 5, 5, 255]);
    assert_eq!(px(&d, 0, 0), [0, 0, 0, 0]);
    assert_eq!(px(&d, 0, 1), [5, 5, 5, 255]);
    let mut s = Display::new(20, 10, 0, 0);
    s.draw_string(0, 0, "L L", (7, 7, 7), 1);
    // 'L' has its left column lit; the space is skipped and the second 'L' starts 8 pixels on
    assert_eq!(px(&s, 0, 2), [7, 7, 7, 255]);
    assert_eq!(px(&s, 4, 2), [0, 0, 0, 0]);
    assert_eq!(px(&s, 8, 2), [7, 7, 7, 255]);
    assert_eq!(display::number_text(0), b"0".to_vec());
    assert_eq!(display::number_text(4096), b"4096".to_vec());
    let mut n = Display::new(20, 10, 0, 0);
    n.draw_number(0, 0, 10, (3, 3, 3), 1);
    // '1' then '0': the '0' glyph fills its top-left cell at x = 4
    assert_eq!(px(&n, 4, 0), [3, 3, 3, 255]);
    assert_eq!(px(&n, 5, 1), [0, 0, 0, 0]);
}

#[test]
fn tangram_point_in_polygon() {
    let square = [(0, 0), (10, 0), (10, 10), (0, 10)];
    assert!(tangram::is_inside(5, 5, &square));
    assert!(!tangram::is_inside(15, 5, &square));
    assert!(!tangram::is_inside(5, 15, &square));
    let (pts, color) = tangram::polygon(0);
    assert_eq!(pts, vec![(152, 69), (54, 69), (54, 165)]);
    assert_eq!(color, (200, 20, 10));
    assert!(tangram::is_inside(60, 80, &pts));
    assert!(!tangram::is_inside(150, 160, &pts));
    assert_eq!(tangram::bounding_box(&pts), (54, 152, 69, 165));
}

#[test]
fn tangram_letterbox() {
    assert_eq!(tangram::letterbox_area(800, 600), (800, 600, 0, 0));
    assert_eq!(tangram::letterbox_area(1000, 600), (800, 600, 100, 0));
    assert_eq!(tangram::letterbox_area(800, 800), (800, 600, 0, 100));
}

#[test]
fn tangram_picture_colors() {
    let mut d = Display::new(800, 600, 0, 0);
    tangram::draw_tangram(&mut d);
    assert_eq!(px(&d, 0, 0), [0x33, 0x33, 0x33, 255]);
    assert_eq!(px(&d, 60, 80), [10, 20, 200, 255]);
    let mut s = Display::new(800, 600, 0, 0);
    tangram::draw_shape(&mut s, 0);
    assert_eq!(px(&s, 60, 80), [10, 20, 200, 255]);
    assert_eq!(px(&s, 0, 0), [0, 0, 0, 0]);
    tangram::fill_background(&mut s);
    assert_eq!(px(&s, 60, 80), [0x33, 0x33, 0x33, 255]);
}

#[test]
fn snake_play_area_grid_and_border() {
    let mut d = Display::new(600, 500, 100, 50);
    snake::fill_background(&mut d);
    snake::draw_play_area(&mut d);
    assert_eq!(px(&d, 0, 0), [30, 30, 35, 255]);
    assert_eq!(px(&d, 100, 50), [50, 50, 60, 255]);
    assert_eq!(px(&d, 105, 50), [50, 50, 60, 255]);
    assert_eq!(px(&d, 105, 55), [30, 30, 35, 255]);
    assert_eq!(px(&d, 99, 60), [255, 255, 255, 255]);
    assert_eq!(px(&d, 500, 450), [255, 255, 255, 255]);
    assert_eq!(px(&d, 120, 71), [50, 50, 60, 255]);
}
