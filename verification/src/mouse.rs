use vstd::prelude::*;

verus! {

/// Horizontal movement of a PS/2 mouse packet: the second byte, made
/// negative by the sign bit (bit 4) of the first.
pub open spec fn packet_dx(b0: u8, b1: u8) -> int {
    b1 as int - if b0 & 0x10u8 != 0 { 256int } else { 0int }
}

/// Vertical movement of a PS/2 mouse packet, upwards positive: the third
/// byte, made negative by the sign bit (bit 5) of the first.
pub open spec fn packet_dy(b0: u8, b2: u8) -> int {
    b2 as int - if b0 & 0x20u8 != 0 { 256int } else { 0int }
}

/// `pos` moved by `delta`, kept within `0..=u16::MAX`.
pub open spec fn saturating_move(pos: int, delta: int) -> int {
    if pos + delta < 0 {
        0
    } else if pos + delta > u16::MAX {
        u16::MAX as int
    } else {
        pos + delta
    }
}

/// A coordinate pulled back onto a screen `size` pixels long, that length
/// taken as a 16-bit number: one at or past it becomes `size - 1`.
pub open spec fn onto_screen(pos: int, size: u64) -> int {
    if pos >= (size as u16) {
        ((size - 1) as u16) as int
    } else {
        pos
    }
}

/// The movement and buttons of a complete mouse packet: horizontal and
/// vertical movement, then the left, middle and right buttons.
pub type MouseMovement = (i16, i16, bool, bool, bool);

/// `after` is the driver `before` after taking `byte`, on a screen of
/// `width` by `height` pixels, and `r` is what it returned: before the
/// third byte of a packet the byte is stored and nothing else changes; the
/// third byte completes the packet, moves the cursor by it (up on screen for
/// upward movement), keeps it on the screen and returns the movement and the
/// left, middle and right buttons.
pub open spec fn handled(before: Mouse, after: Mouse, byte: u8, width: u64, height: u64, r: Option<MouseMovement>) -> bool {
    &&& before.cycle() < 2 ==> {
        &&& r == None::<MouseMovement>
        &&& after.cycle() == before.cycle() + 1
        &&& after.bytes() == if before.cycle() == 0 {
            (byte, before.bytes().1, before.bytes().2)
        } else {
            (before.bytes().0, byte, before.bytes().2)
        }
        &&& after.pos() == before.pos()
        &&& after.last_pos() == before.last_pos()
    }
    &&& before.cycle() == 2 ==> {
        let b0 = before.bytes().0;
        let b1 = before.bytes().1;
        let dx = packet_dx(b0, b1);
        let dy = packet_dy(b0, byte);
        &&& r == Some((dx as i16, dy as i16, b0 & 1 == 1, b0 & 4 == 4, b0 & 2 == 2))
        &&& after.cycle() == 0
        &&& after.bytes() == (b0, b1, byte)
        &&& after.last_pos() == before.pos()
        &&& after.pos().0 == onto_screen(saturating_move(before.pos().0 as int, dx), width)
        &&& after.pos().1 == onto_screen(saturating_move(before.pos().1 as int, -dy), height)
    }
}

/// The third byte of a packet completes it, and the movement and buttons
/// come from its bytes: bit 0 of the first byte is the left button, bit 2
/// the middle one and bit 1 the right one; the movements are the second and
/// third bytes, negative where bits 4 and 5 of the first byte say so. The
/// byte before the third completes nothing.
pub proof fn lemma_packet_decoded(before: Mouse, after: Mouse, byte: u8, width: u64, height: u64, r: Option<MouseMovement>)
    requires
        before.wf(),
        handled(before, after, byte, width, height, r),
    ensures
        before.cycle() < 2 ==> r is None,
        before.cycle() == 2 ==> (r matches Some(m) && {
            let b0 = before.bytes().0;
            &&& m.2 == (b0 & 0x01 != 0)
            &&& m.3 == (b0 & 0x04 != 0)
            &&& m.4 == (b0 & 0x02 != 0)
            &&& m.0 as int == before.bytes().1 as int - (if b0 & 0x10 != 0 { 256int } else { 0int })
            &&& m.1 as int == byte as int - (if b0 & 0x20 != 0 { 256int } else { 0int })
        }),
{
    if before.cycle() == 2 {
        let b0 = before.bytes().0;
        let b1 = before.bytes().1;
        assert((b0 & 1 == 1) == (b0 & 0x01 != 0)) by (bit_vector);
        assert((b0 & 4 == 4) == (b0 & 0x04 != 0)) by (bit_vector);
        assert((b0 & 2 == 2) == (b0 & 0x02 != 0)) by (bit_vector);
        let dx = packet_dx(b0, b1);
        let dy = packet_dy(b0, byte);
        assert(-256 <= dx < 256 && -256 <= dy < 256);
    }
}

/// The state of the PS/2 mouse driver: the packet being received, the
/// cursor position, where it was before the last packet, and the colour of
/// the pixel the cursor covers.
pub struct Mouse {
    cycle: u32,
    bytes: (u8, u8, u8),
    pos: (u16, u16),
    last_pos: (u16, u16),
    under: u32,
}

impl Mouse {
    /// How many bytes of the current packet have arrived.
    pub closed spec fn cycle(&self) -> int {
        self.cycle as int
    }

    /// The bytes received for the current packet.
    pub closed spec fn bytes(&self) -> (u8, u8, u8) {
        self.bytes
    }

    pub closed spec fn pos(&self) -> (u16, u16) {
        self.pos
    }

    pub closed spec fn last_pos(&self) -> (u16, u16) {
        self.last_pos
    }

    /// The colour of the pixel under the cursor.
    pub closed spec fn under(&self) -> u32 {
        self.under
    }

    pub open spec fn wf(&self) -> bool {
        0 <= self.cycle() < 3
    }

    /// The driver before any byte: cursor in the top left corner.
    pub fn new() -> (m: Mouse)
        ensures
            m.wf(),
            m.cycle() == 0,
            m.bytes() == (0u8, 0u8, 0u8),
            m.pos() == (0u16, 0u16),
            m.last_pos() == (0u16, 0u16),
            m.under() == 0,
    {
        Mouse { cycle: 0, bytes: (0, 0, 0), pos: (0, 0), last_pos: (0, 0), under: 0 }
    }

    /// How many bytes of the current packet have arrived.
    pub fn pending_bytes(&self) -> (r: u32)
        ensures r == self.cycle(),
    {
        self.cycle
    }

    pub fn position(&self) -> (r: (u16, u16))
        ensures r == self.pos(),
    {
        self.pos
    }

    pub fn last_position(&self) -> (r: (u16, u16))
        ensures r == self.last_pos(),
    {
        self.last_pos
    }

    pub fn under_cursor(&self) -> (r: u32)
        ensures r == self.under(),
    {
        self.under
    }

    pub fn set_under_cursor(&mut self, color: u32)
        ensures
            final(self).under() == color,
            final(self).cycle() == old(self).cycle(),
            final(self).bytes() == old(self).bytes(),
            final(self).pos() == old(self).pos(),
            final(self).last_pos() == old(self).last_pos(),
    {
        self.under = color;
    }

    /// Takes one byte from the mouse. The third byte of a packet completes
    /// it: the cursor moves by the packet (up on screen for upward movement),
    /// is kept on a screen of `width` by `height` pixels, and the packet's
    /// movement and buttons are returned.
    pub fn mouse_handler(&mut self, byte: u8, width: u64, height: u64) -> (r: Option<MouseMovement>)
        requires
            old(self).wf(),
            old(self).cycle() == 2 ==> width > 0 && height > 0,
        ensures
            final(self).wf(),
            final(self).under() == old(self).under(),
            handled(*old(self), *final(self), byte, width, height, r),
            old(self).cycle() < 2 <==> r is None,
            r matches Some(m) ==> {
                let b0 = old(self).bytes().0;
                &&& m.2 == (b0 & 0x01 != 0)
                &&& m.3 == (b0 & 0x04 != 0)
                &&& m.4 == (b0 & 0x02 != 0)
            },
    {
        if self.cycle == 0 {
            self.bytes.0 = byte;
        } else if self.cycle == 1 {
            self.bytes.1 = byte;
        } else {
            self.bytes.2 = byte;
        }
        self.cycle += 1;
        if self.cycle >= 3 {
            let b0 = self.bytes.0;
            let b1 = self.bytes.1;
            let b2 = self.bytes.2;
            proof {
                assert(((b0 as i16) << 4i16) & 0x100i16 == if b0 & 0x10u8 != 0 { 256i16 } else { 0i16 }) by (bit_vector);
                assert(((b0 as i16) << 3i16) & 0x100i16 == if b0 & 0x20u8 != 0 { 256i16 } else { 0i16 }) by (bit_vector);
            }
            let xrel: i16 = b1 as i16 - (((b0 as i16) << 4i16) & 0x100);
            let yrel: i16 = b2 as i16 - (((b0 as i16) << 3i16) & 0x100);
            self.last_pos = self.pos;
            self.pos.0 = saturating_add_signed(self.pos.0, xrel);
            self.pos.1 = saturating_add_signed(self.pos.1, -yrel);
            if self.pos.0 >= width as u16 {
                self.pos.0 = (width - 1) as u16;
            }
            if self.pos.1 >= height as u16 {
                self.pos.1 = (height - 1) as u16;
            }
            self.cycle = 0;
            proof {
                assert((b0 & 1 == 1) == (b0 & 0x01 != 0)) by (bit_vector);
                assert((b0 & 4 == 4) == (b0 & 0x04 != 0)) by (bit_vector);
                assert((b0 & 2 == 2) == (b0 & 0x02 != 0)) by (bit_vector);
            }
            return Some((xrel, yrel, b0 & 1 == 1, b0 & 4 == 4, b0 & 2 == 2));
        }
        None
    }
}

/// `pos + delta`, kept within `0..=u16::MAX`.
fn saturating_add_signed(pos: u16, delta: i16) -> (r: u16)
    ensures
        r == saturating_move(pos as int, delta as int),
{
    let v: i32 = pos as i32 + delta as i32;
    if v < 0 {
        0
    } else if v > 0xFFFF {
        0xFFFF
    } else {
        v as u16
    }
}

/// After a complete packet the cursor is on a screen of `width` by `height`
/// pixels, whatever the packet.
pub proof fn lemma_cursor_on_screen(pos: int, delta: int, size: u64)
    requires
        0 < size,
        0 <= pos <= u16::MAX,
    ensures
        0 <= onto_screen(saturating_move(pos, delta), size) < size,
{
    let p = saturating_move(pos, delta);
    assert((size as u16) as u64 == size % 65536) by (bit_vector);
    assert(((size - 1) as u16) as u64 == (size - 1) % 65536) by (bit_vector)
        requires size > 0;
}

} // verus!
