use vstd::prelude::*;
use crate::framebuffer::{Framebuffer, pixel};
use crate::keyboard::{keyboard_handler, scancode_key};
use crate::mouse::{Mouse, MouseMovement, lemma_cursor_on_screen, handled};
use crate::terminal::{Writer, after_bytes};

verus! {

/// The interrupt vector of the keyboard (IRQ 1 after remapping).
pub const KEYBOARD_VECTOR: u64 = 33;

/// The interrupt vector of the PS/2 mouse (IRQ 12 after remapping).
pub const MOUSE_VECTOR: u64 = 44;

/// The value the entry stubs pass as error code for exceptions that push none.
pub const NO_ERROR_CODE: u64 = 0xEA7BEEF;

/// What the common interrupt handler does for an interrupt.
#[derive(Clone, Copy, Debug, PartialEq, Eq, Structural)]
pub enum InterruptKind {
    /// A byte from the mouse is waiting.
    Mouse,
    /// A scancode from the keyboard is waiting.
    Keyboard,
    /// Any other vector is an exception the kernel does not handle; whether
    /// the processor pushed an error code for it.
    Exception { pushes_code: bool },
}

/// Sorts the interrupt `isr` that arrived with `error_code`.
pub fn classify_interrupt(isr: u64, error_code: u64) -> (r: InterruptKind)
    ensures
        r == if isr == MOUSE_VECTOR {
            InterruptKind::Mouse
        } else if isr == KEYBOARD_VECTOR {
            InterruptKind::Keyboard
        } else {
            InterruptKind::Exception { pushes_code: error_code != NO_ERROR_CODE }
        },
{
    let mut pushes_code = true;
    if error_code == NO_ERROR_CODE {
        pushes_code = false;
    }
    match isr {
        44 => InterruptKind::Mouse,
        33 => InterruptKind::Keyboard,
        _ => InterruptKind::Exception { pushes_code },
    }
}

/// One 8-bit channel of the cursor colour: full where its button is held.
pub open spec fn channel(pressed: bool) -> u32 {
    if pressed {
        0xFF
    } else {
        0x69
    }
}

/// The colour of the mouse cursor for the buttons held: opaque, red for the
/// left button, green for the middle one, blue for the right one.
pub open spec fn cursor_rgb(left: bool, middle: bool, right: bool) -> u32 {
    (0xFF000000u32 + channel(left) * 0x10000 + channel(middle) * 0x100 + channel(right)) as u32
}

/// The colour of the mouse cursor for the buttons held.
pub fn cursor_color(left: bool, middle: bool, right: bool) -> (r: u32)
    ensures
        r == cursor_rgb(left, middle, right),
{
    match (left, middle, right) {
        (false, false, false) => 0xFF696969,
        (true, false, false) => 0xFFFF6969,
        (true, true, false) => 0xFFFFFF69,
        (true, true, true) => 0xFFFFFFFF,
        (false, true, true) => 0xFF69FFFF,
        (false, false, true) => 0xFF6969FF,
        (false, true, false) => 0xFF69FF69,
        (true, false, true) => 0xFFFF69FF,
    }
}

/// `pixels` (rows of `stride` words) after a `pixel` write of `c` at `(x, y)`.
pub open spec fn write_at(pixels: Seq<u32>, stride: int, x: int, y: int, c: u32) -> Seq<u32> {
    if 0 <= y * stride + x < pixels.len() {
        pixels.update(y * stride + x, c)
    } else {
        pixels
    }
}

/// What a mouse byte does to the screen: nothing until a packet completes;
/// then the pixel the cursor covered gets its colour back, the colour under
/// the new position, on the screen, is saved, and the cursor is drawn there
/// in the colour of the buttons.
pub open spec fn redrawn(mouse_before: Mouse, mouse_after: Mouse, fb_before: Framebuffer, fb_after: Framebuffer) -> bool {
    &&& mouse_before.cycle() < 2 ==> fb_after.pixels() == fb_before.pixels() && mouse_after.under() == mouse_before.under()
    &&& mouse_before.cycle() == 2 ==> {
        let b0 = mouse_before.bytes().0;
        let restored = write_at(
            fb_before.pixels(),
            fb_before.stride(),
            mouse_after.last_pos().0 as int,
            mouse_after.last_pos().1 as int,
            mouse_before.under(),
        );
        let p = mouse_after.pos();
        &&& p.0 < fb_before.width()
        &&& p.1 < fb_before.height()
        &&& mouse_after.under() == if fb_before.in_memory(p.0 as int, p.1 as int) {
            restored[fb_before.offset(p.0 as int, p.1 as int)]
        } else {
            mouse_before.under()
        }
        &&& fb_after.pixels() == write_at(restored, fb_before.stride(), p.0 as int, p.1 as int, cursor_rgb(b0 & 1 == 1, b0 & 4 == 4, b0 & 2 == 2))
    }
}

/// The cursor leaves no trace. Say the screen shows a background `bg` with
/// the cursor drawn over it at its position, and the colour saved under the
/// cursor is the background's there. Then after the byte that completes a
/// packet, wherever the cursor went (or if it stayed), the screen is the
/// background everywhere but at the new cursor position, and the colour
/// saved under the cursor is the background's at that position.
pub proof fn lemma_cursor_leaves_no_trace(
    mouse_before: Mouse,
    mouse_after: Mouse,
    fb_before: Framebuffer,
    fb_after: Framebuffer,
    bg: Seq<u32>,
)
    requires
        mouse_before.cycle() == 2,
        mouse_after.last_pos() == mouse_before.pos(),
        redrawn(mouse_before, mouse_after, fb_before, fb_after),
        bg.len() == fb_before.pixels().len(),
        fb_before.in_memory(mouse_before.pos().0 as int, mouse_before.pos().1 as int),
        fb_before.in_memory(mouse_after.pos().0 as int, mouse_after.pos().1 as int),
        forall|i: int|
            0 <= i < bg.len() && i != fb_before.offset(mouse_before.pos().0 as int, mouse_before.pos().1 as int)
                ==> #[trigger] fb_before.pixels()[i] == bg[i],
        mouse_before.under() == bg[fb_before.offset(mouse_before.pos().0 as int, mouse_before.pos().1 as int)],
    ensures
        mouse_after.under() == bg[fb_before.offset(mouse_after.pos().0 as int, mouse_after.pos().1 as int)],
        fb_after.pixels().len() == bg.len(),
        forall|i: int|
            0 <= i < bg.len() && i != fb_before.offset(mouse_after.pos().0 as int, mouse_after.pos().1 as int)
                ==> #[trigger] fb_after.pixels()[i] == bg[i],
{
    let p0 = mouse_before.pos();
    let s = fb_before.stride();
    let restored = write_at(fb_before.pixels(), s, p0.0 as int, p0.1 as int, mouse_before.under());
    assert(restored =~= bg);
}

/// Handles a byte from the mouse: once a packet is complete, the pixel the
/// cursor covered gets its colour back, the colour under the new position
/// is saved, and the cursor is drawn there in the colour of the buttons.
pub fn mouse_interrupt(mouse: &mut Mouse, fb: &mut Framebuffer, byte: u8) -> (r: Option<MouseMovement>)
    requires
        old(mouse).wf(),
        old(fb).wf(),
        old(mouse).cycle() == 2 ==> old(fb).width() > 0 && old(fb).height() > 0,
    ensures
        final(mouse).wf(),
        final(fb).wf(),
        final(fb).same_shape(old(fb)),
        handled(*old(mouse), *final(mouse), byte, old(fb).width() as u64, old(fb).height() as u64, r),
        redrawn(*old(mouse), *final(mouse), *old(fb), *final(fb)),
{
    let width = fb.get_width();
    let height = fb.get_height();
    let movement = mouse.mouse_handler(byte, width, height);
    match movement {
        Some(m) => {
            let (lx, ly) = mouse.last_position();
            pixel(fb, lx as u64, ly as u64, mouse.under_cursor());
            let (px, py) = mouse.position();
            proof {
                lemma_cursor_on_screen(old(mouse).pos().0 as int, m.0 as int, width);
                lemma_cursor_on_screen(old(mouse).pos().1 as int, -(m.1 as int), height);
                fb.lemma_wf();
            }
            let under = match fb.read_pixel(px as u64, py as u64) {
                Some(c) => c,
                None => mouse.under_cursor(),
            };
            mouse.set_under_cursor(under);
            pixel(fb, px as u64, py as u64, cursor_color(m.2, m.3, m.4));
            Some(m)
        },
        None => None,
    }
}

/// Handles a scancode from the keyboard: the character of a pressed key is
/// echoed on the console, a carriage return followed by a line feed.
pub fn keyboard_interrupt(writer: &mut Writer, scancode: u8) -> (r: Option<(u8, bool)>)
    requires
        old(writer).wf(),
    ensures
        final(writer).wf(),
        r == scancode_key(scancode),
        ({
            let echoed = match r {
                Some(key) => if key.0 == 13 { seq![13u8, 10u8] } else { seq![key.0] },
                None => Seq::<u8>::empty(),
            };
            (final(writer).col(), final(writer).row(), final(writer).fb().pixels()) == after_bytes(
                &old(writer).font(),
                old(writer).fb().stride(),
                old(writer).cols(),
                old(writer).rows(),
                old(writer).col(),
                old(writer).row(),
                old(writer).fb().pixels(),
                echoed,
            )
        }),
        final(writer).font() == old(writer).font(),
        final(writer).fb().same_shape(&old(writer).fb()),
{
    let key = keyboard_handler(scancode);
    match key {
        Some(k) => {
            if k.1 {
                let text: Vec<u8> = if k.0 == 13 { vec![13u8, 10u8] } else { vec![k.0] };
                writer.write_str(text.as_slice());
                proof {
                    if k.0 == 13 {
                        assert(text@ =~= seq![13u8, 10u8]);
                    } else {
                        assert(text@ =~= seq![k.0]);
                    }
                }
            }
        },
        None => {
            proof {
                assert(after_bytes(&writer.font(), writer.fb().stride(), writer.cols(), writer.rows(), writer.col(), writer.row(), writer.fb().pixels(), Seq::<u8>::empty()) == (writer.col(), writer.row(), writer.fb().pixels()));
            }
        },
    }
    key
}

} // verus!
