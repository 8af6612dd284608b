use kernel::framebuffer::clear;
use kernel::framebuffer::Font;
use kernel::framebuffer::Framebuffer;
use kernel::terminal::Writer;

fn writer(width: u64, height: u64) -> Writer {
    let mut glyphs = vec![0u8; 4096];
    glyphs[65 * 16] = 0x80;
    glyphs[66 * 16 + 1] = 0x01;
    let font = Font::new(glyphs).unwrap();
    let mut fb = Framebuffer::new(width, height, width * 4).unwrap();
    clear(&mut fb, 5);
    Writer::new(fb, font)
}

#[test]
fn printable_bytes_advance_the_cursor() {
    let mut w = writer(32, 32);
    w.write_str(b"AB");
    assert_eq!(w.cursor(), (2, 0));
}

#[test]
fn line_feed_moves_to_next_row_and_wraps_to_top() {
    let mut w = writer(32, 32);
    w.write_str(b"A\n");
    assert_eq!(w.cursor(), (0, 1));
    w.write_str(b"\n");
    assert_eq!(w.cursor(), (0, 0));
}

#[test]
fn carriage_return_and_backspace() {
    let mut w = writer(32, 32);
    w.write_str(b"\x08");
    assert_eq!(w.cursor(), (0, 0));
    w.write_str(b"AAA\x08");
    assert_eq!(w.cursor(), (2, 0));
    w.write_str(b"\r");
    assert_eq!(w.cursor(), (0, 0));
}

#[test]
fn tab_past_the_last_column_wraps() {
    let mut w = writer(32, 32);
    w.write_str(b"\t");
    assert_eq!(w.cursor(), (0, 1));
    let mut wide = writer(160, 32);
    wide.write_str(b"\t");
    assert_eq!(wide.cursor(), (8, 0));
}

#[test]
fn last_column_wraps_to_next_row() {
    let mut w = writer(32, 32);
    w.write_str(b"AAAA");
    assert_eq!(w.cursor(), (0, 1));
}

#[test]
fn glyph_is_drawn_in_a_cleared_cell() {
    let mut w = writer(32, 32);
    w.write_str(b"A");
    let fb = w.framebuffer();
    assert_eq!(fb.read_pixel(0, 0), Some(0xFFFFFFFF));
    assert_eq!(fb.read_pixel(1, 0), Some(0));
    assert_eq!(fb.read_pixel(8, 16), Some(0));
    assert_eq!(fb.read_pixel(9, 0), Some(5));
    assert_eq!(fb.read_pixel(0, 17), Some(5));
}

#[test]
fn second_glyph_goes_in_the_second_cell() {
    let mut w = writer(32, 32);
    w.write_str(b"AB");
    let fb = w.framebuffer();
    assert_eq!(fb.read_pixel(15, 1), Some(0xFFFFFFFF));
    assert_eq!(fb.read_pixel(0, 0), Some(0xFFFFFFFF));
}
