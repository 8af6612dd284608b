use kernel::framebuffer::character;
use kernel::framebuffer::clear;
use kernel::framebuffer::pixel;
use kernel::framebuffer::rect;
use kernel::framebuffer::Font;
use kernel::framebuffer::Framebuffer;

fn fb(width: u64, height: u64, pitch: u64) -> Framebuffer {
    Framebuffer::new(width, height, pitch).unwrap()
}

fn lit(fb: &Framebuffer, color: u32) -> Vec<(u64, u64)> {
    let mut out = vec![];
    for y in 0..fb.get_height() {
        for x in 0..fb.get_pitch() / 4 {
            if fb.read_pixel(x, y) == Some(color) {
                out.push((x, y));
            }
        }
    }
    out
}

#[test]
fn clear_with_width_past_the_pitch_wraps_into_the_next_row() {
    let mut f = fb(5, 2, 16);
    clear(&mut f, 9);
    assert_eq!(f.words(), &vec![9; 8]);
    assert_eq!(f.read_pixel(4, 0), Some(9));
    assert_eq!(f.read_pixel(4, 1), None);
}

#[test]
fn new_rejects_bad_geometry() {
    assert!(Framebuffer::new(4, 4, 15).is_none());
    assert!(Framebuffer::new(5, 4, 16).is_some());
    assert!(Framebuffer::new(4, 4, 16).is_some());
    assert!(Framebuffer::new(4, u64::MAX, 16).is_none());
}

#[test]
fn pixel_writes_at_row_and_column() {
    let mut f = fb(3, 2, 16);
    pixel(&mut f, 2, 1, 0xAB);
    assert_eq!(f.read_pixel(2, 1), Some(0xAB));
    assert_eq!(lit(&f, 0xAB), vec![(2, 1)]);
}

#[test]
fn pixel_past_the_row_lands_in_the_next_row() {
    let mut f = fb(3, 2, 12);
    pixel(&mut f, 3, 0, 5);
    assert_eq!(f.read_pixel(0, 1), Some(5));
}

#[test]
fn pixel_outside_memory_is_dropped() {
    let mut f = fb(3, 2, 12);
    pixel(&mut f, 0, 2, 5);
    pixel(&mut f, 100, 1, 5);
    assert!(lit(&f, 5).is_empty());
    assert_eq!(f.read_pixel(0, 2), None);
}

#[test]
fn rect_draws_border_and_fill() {
    let mut f = fb(5, 5, 20);
    rect(&mut f, 1, 1, 3, 3, 1, 2);
    assert_eq!(lit(&f, 2), vec![(2, 2)]);
    assert_eq!(lit(&f, 1).len(), 8);
    assert_eq!(f.read_pixel(0, 0), Some(0));
    assert_eq!(f.read_pixel(4, 4), Some(0));
    assert_eq!(f.read_pixel(1, 2), Some(1));
}

#[test]
fn rect_wider_than_a_row_keeps_the_last_write_of_each_word() {
    let mut f = fb(4, 4, 16);
    rect(&mut f, 0, 0, 5, 2, 1, 2);
    assert_eq!(f.words(), &vec![1, 1, 1, 1, 1, 2, 2, 2, 1, 1, 1, 1, 1, 1, 0, 0]);
}

#[test]
fn rect_with_swapped_corners_draws_nothing() {
    let mut f = fb(5, 5, 20);
    rect(&mut f, 3, 1, 1, 3, 1, 2);
    assert!(lit(&f, 1).is_empty() && lit(&f, 2).is_empty());
}

#[test]
fn clear_paints_visible_pixels_only() {
    let mut f = fb(3, 2, 16);
    clear(&mut f, 9);
    assert_eq!(lit(&f, 9).len(), 6);
    assert_eq!(f.read_pixel(3, 0), Some(0));
    assert_eq!(f.read_pixel(3, 1), Some(0));
}

#[test]
fn line_follows_bresenham() {
    let mut f = fb(4, 2, 16);
    kernel::framebuffer::line(&mut f, 0, 0, 3, 1, 7);
    assert_eq!(lit(&f, 7), vec![(0, 0), (1, 0), (2, 1), (3, 1)]);
}

#[test]
fn line_backwards_and_steep() {
    let mut f = fb(3, 4, 12);
    kernel::framebuffer::line(&mut f, 2, 3, 0, 0, 7);
    let pts = lit(&f, 7);
    assert!(pts.contains(&(2, 3)) && pts.contains(&(0, 0)));
    assert_eq!(pts.len(), 4);
}

#[test]
fn line_single_point() {
    let mut f = fb(3, 3, 12);
    kernel::framebuffer::line(&mut f, 1, 1, 1, 1, 7);
    assert_eq!(lit(&f, 7), vec![(1, 1)]);
}

#[test]
fn line_endpoints_and_neighbours() {
    let mut f = fb(10, 10, 40);
    kernel::framebuffer::line(&mut f, 1, 8, 7, 2, 3);
    let pts = lit(&f, 3);
    assert!(pts.contains(&(1, 8)) && pts.contains(&(7, 2)));
    assert_eq!(pts.len(), 7);
    for &(x, y) in &pts {
        assert!((1..=7).contains(&x) && (2..=8).contains(&y));
    }
}

#[test]
fn font_needs_256_glyphs() {
    assert!(Font::new(vec![0; 4095]).is_none());
    assert!(Font::new(vec![0; 4096]).is_some());
    assert!(Font::new(vec![0; 5000]).is_some());
}

#[test]
fn character_draws_lit_bits() {
    let mut glyphs = vec![0u8; 4096];
    glyphs[65 * 16] = 0x81;
    glyphs[65 * 16 + 15] = 0x40;
    let font = Font::new(glyphs).unwrap();
    let mut f = fb(10, 20, 40);
    character(&mut f, &font, 1, 2, 65, 4);
    assert_eq!(lit(&f, 4), vec![(1, 2), (8, 2), (2, 17)]);
}
