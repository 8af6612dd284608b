use kernel::framebuffer::Font;
use kernel::framebuffer::Framebuffer;
use kernel::idt::classify_interrupt;
use kernel::idt::cursor_color;
use kernel::idt::keyboard_interrupt;
use kernel::idt::mouse_interrupt;
use kernel::idt::InterruptKind;
use kernel::keyboard::keyboard_handler;
use kernel::mouse::Mouse;
use kernel::pic::TimerTick;
use kernel::terminal::Writer;

#[test]
fn scancodes_decode_to_characters() {
    assert_eq!(keyboard_handler(0x02), Some((b'1', true)));
    assert_eq!(keyboard_handler(0x10), Some((b'q', true)));
    assert_eq!(keyboard_handler(0x1C), Some((13, true)));
    assert_eq!(keyboard_handler(0x39), Some((b' ', true)));
    assert_eq!(keyboard_handler(0x0E), Some((8, true)));
    assert_eq!(keyboard_handler(0x52), Some((b'0', true)));
}

#[test]
fn keys_without_character_and_releases_decode_to_none() {
    assert_eq!(keyboard_handler(0x00), None);
    assert_eq!(keyboard_handler(0x1D), None);
    assert_eq!(keyboard_handler(0x58), None);
    assert_eq!(keyboard_handler(0x59), None);
    assert_eq!(keyboard_handler(0x82), None);
}

#[test]
fn timer_counts_down_and_starts_over() {
    let mut t = TimerTick::new();
    let ticks: Vec<usize> = (0..11).map(|_| t.timer_tick()).collect();
    assert_eq!(ticks, vec![4, 3, 2, 1, 0, 4, 3, 2, 1, 0, 4]);
}

#[test]
fn mouse_packet_moves_the_cursor() {
    let mut m = Mouse::new();
    assert_eq!(m.mouse_handler(0x09, 100, 100), None);
    assert_eq!(m.mouse_handler(5, 100, 100), None);
    assert_eq!(m.mouse_handler(0xFD, 100, 100), Some((5, 253, true, false, false)));
    assert_eq!(m.position(), (5, 0));
}

#[test]
fn mouse_sign_bits_make_movement_negative() {
    let mut m = Mouse::new();
    m.mouse_handler(0x08, 100, 100);
    m.mouse_handler(20, 100, 100);
    m.mouse_handler(0, 100, 100);
    m.mouse_handler(0x38, 100, 100);
    m.mouse_handler(0xFB, 100, 100);
    assert_eq!(m.mouse_handler(0xF6, 100, 100), Some((-5, -10, false, false, false)));
    assert_eq!(m.position(), (15, 10));
    assert_eq!(m.last_position(), (20, 0));
}

#[test]
fn mouse_stays_on_screen() {
    let mut m = Mouse::new();
    m.mouse_handler(0x0E, 4, 3);
    m.mouse_handler(100, 4, 3);
    assert_eq!(m.mouse_handler(0x9C, 4, 3), Some((100, 156, false, true, true)));
    assert_eq!(m.position(), (3, 0));
    m.mouse_handler(0x28, 4, 3);
    m.mouse_handler(0, 4, 3);
    m.mouse_handler(0x80, 4, 3);
    assert_eq!(m.position(), (3, 2));
}

#[test]
fn interrupts_are_sorted_by_vector() {
    assert_eq!(classify_interrupt(44, 0xEA7BEEF), InterruptKind::Mouse);
    assert_eq!(classify_interrupt(33, 0), InterruptKind::Keyboard);
    assert_eq!(classify_interrupt(14, 2), InterruptKind::Exception { pushes_code: true });
    assert_eq!(classify_interrupt(0, 0xEA7BEEF), InterruptKind::Exception { pushes_code: false });
}

#[test]
fn cursor_colour_shows_the_buttons() {
    assert_eq!(cursor_color(false, false, false), 0xFF696969);
    assert_eq!(cursor_color(true, false, false), 0xFFFF6969);
    assert_eq!(cursor_color(false, true, false), 0xFF69FF69);
    assert_eq!(cursor_color(false, false, true), 0xFF6969FF);
    assert_eq!(cursor_color(true, true, true), 0xFFFFFFFF);
    assert_eq!(cursor_color(true, false, true), 0xFFFF69FF);
}

#[test]
fn mouse_interrupt_moves_the_drawn_cursor() {
    let mut fb = Framebuffer::new(10, 10, 40).unwrap();
    kernel::framebuffer::pixel(&mut fb, 2, 0, 77);
    let mut m = Mouse::new();
    assert_eq!(mouse_interrupt(&mut m, &mut fb, 0x08), None);
    mouse_interrupt(&mut m, &mut fb, 2);
    assert_eq!(mouse_interrupt(&mut m, &mut fb, 0), Some((2, 0, false, false, false)));
    assert_eq!(m.under_cursor(), 77);
    assert_eq!(fb.read_pixel(2, 0), Some(0xFF696969));
    mouse_interrupt(&mut m, &mut fb, 0x09);
    mouse_interrupt(&mut m, &mut fb, 1);
    mouse_interrupt(&mut m, &mut fb, 0);
    assert_eq!(fb.read_pixel(2, 0), Some(77));
    assert_eq!(fb.read_pixel(3, 0), Some(0xFFFF6969));
    assert_eq!(m.under_cursor(), 0);
}

#[test]
fn keyboard_interrupt_echoes_pressed_keys() {
    let font = Font::new(vec![0; 4096]).unwrap();
    let fb = Framebuffer::new(64, 64, 256).unwrap();
    let mut w = Writer::new(fb, font);
    assert_eq!(keyboard_interrupt(&mut w, 0x1E), Some((b'a', true)));
    assert_eq!(w.cursor(), (1, 0));
    assert_eq!(keyboard_interrupt(&mut w, 0x1C), Some((13, true)));
    assert_eq!(w.cursor(), (0, 1));
    assert_eq!(keyboard_interrupt(&mut w, 0x9E), None);
    assert_eq!(w.cursor(), (0, 1));
}
