use vstd::prelude::*;
use crate::framebuffer::{Framebuffer, Font, rect, character, in_rect, glyph_lit, painted, lemma_painted, clear, visible, untouched_outside, colored};
use crate::mouse::{Mouse, MouseMovement, handled};
use crate::idt::{mouse_interrupt, redrawn};

verus! {

/// The colour of text.
pub const TEXT_COLOR: u32 = 0xFFFFFFFF;

/// The colour a character cell is cleared to before a glyph is drawn.
pub const CELL_COLOR: u32 = 0x00000000;

/// The row after `row`, back to the top after the last of `rows` rows.
pub open spec fn next_row(row: int, rows: int) -> int {
    if row + 1 >= rows {
        0
    } else {
        row + 1
    }
}

/// Where the cursor `(col, row)` of a grid of `cols` by `rows` cells goes
/// after the byte `c`: backspace steps left (not past the margin), tab moves
/// eight cells right, carriage return goes to the margin, line feed to the
/// margin of the next row, and any other byte takes one cell. A cursor that
/// runs past the last column wraps to the next row.
pub open spec fn cursor_after(col: int, row: int, cols: int, rows: int, c: u8) -> (int, int) {
    if c == 8 {
        (if col > 0 { col - 1 } else { 0 }, row)
    } else if c == 9 {
        if col + 8 >= cols { (0, next_row(row, rows)) } else { (col + 8, row) }
    } else if c == 13 {
        (0, row)
    } else if c == 10 {
        (0, next_row(row, rows))
    } else {
        if col + 1 >= cols { (0, next_row(row, rows)) } else { (col + 1, row) }
    }
}

/// The byte moves the cursor without drawing.
pub open spec fn is_control(c: u8) -> bool {
    c == 8 || c == 9 || c == 13 || c == 10
}

/// The points of the character cell at `(col, row)` that are cleared before
/// a glyph is drawn there: an 8 by 16 cell and the row and column after it.
pub open spec fn cell_area(col: int, row: int) -> spec_fn(int, int) -> bool {
    |x: int, y: int| in_rect(col * 8, row * 16, col * 8 + 8, row * 16 + 16, x, y)
}

/// The pixels of the glyph for `c` drawn in the cell at `(col, row)`.
pub open spec fn cell_glyph(font: &Font, c: u8, col: int, row: int) -> spec_fn(int, int) -> bool {
    |x: int, y: int| glyph_lit(font, c, col * 8, row * 16, x, y)
}

/// `pixels` after printing `c` in the cell at `(col, row)`.
pub open spec fn draw_cell(pixels: Seq<u32>, stride: int, font: &Font, col: int, row: int, c: u8) -> Seq<u32> {
    painted(painted(pixels, stride, cell_area(col, row), CELL_COLOR), stride, cell_glyph(font, c, col, row), TEXT_COLOR)
}

/// Bit `7 - dx` of row `dy` of the glyph for `c` is set.
pub open spec fn glyph_bit(font: &Font, c: u8, dx: int, dy: int) -> bool {
    font.bytes()[c as int * 16 + dy] & (128u8 >> (dx as u8)) != 0
}

/// Printing `c` in the cell at `(col, row)` touches only the 8 by 16 cell
/// whose top left corner is `(8 * col, 16 * row)`, with the row and column
/// after it: every word of memory that no point of that area lies in keeps
/// its value, so text rows do not overlap. Each lit pixel of the glyph,
/// `(8 * col + dx, 16 * row + dy)` for a set bit `7 - dx` of glyph row `dy`,
/// is white, and each other point of the area that shares its word with no
/// glyph pixel is black.
pub proof fn lemma_draw_cell_places(pixels: Seq<u32>, stride: int, font: &Font, col: int, row: int, c: u8)
    requires
        font.wf(),
        0 <= col,
        0 <= row,
        0 <= stride,
    ensures
        draw_cell(pixels, stride, font, col, row, c).len() == pixels.len(),
        forall|i: int|
            0 <= i < pixels.len() && (forall|x: int, y: int|
                #[trigger] in_rect(8 * col, 16 * row, 8 * col + 8, 16 * row + 16, x, y) ==> y * stride + x != i)
                ==> #[trigger] draw_cell(pixels, stride, font, col, row, c)[i] == pixels[i],
        forall|dx: int, dy: int|
            0 <= dx < 8 && 0 <= dy < 16 && #[trigger] glyph_bit(font, c, dx, dy) && 0 <= (16 * row + dy) * stride + 8 * col
                + dx < pixels.len() ==> draw_cell(pixels, stride, font, col, row, c)[(16 * row + dy) * stride + 8 * col + dx]
                == 0xFFFFFFFFu32,
        forall|x: int, y: int|
            #[trigger] in_rect(8 * col, 16 * row, 8 * col + 8, 16 * row + 16, x, y) && 0 <= y * stride + x < pixels.len()
                && (forall|dx: int, dy: int|
                0 <= dx < 8 && 0 <= dy < 16 && #[trigger] glyph_bit(font, c, dx, dy) ==> (16 * row + dy) * stride + 8 * col
                    + dx != y * stride + x) ==> draw_cell(pixels, stride, font, col, row, c)[y * stride + x] == 0u32,
{
    let area = cell_area(col, row);
    let glyph = cell_glyph(font, c, col, row);
    let inner = painted(pixels, stride, area, CELL_COLOR);
    let d = draw_cell(pixels, stride, font, col, row, c);
    assert forall|i: int|
        0 <= i < pixels.len() && (forall|x: int, y: int|
            #[trigger] in_rect(8 * col, 16 * row, 8 * col + 8, 16 * row + 16, x, y) ==> y * stride + x != i)
            implies #[trigger] d[i] == pixels[i] by {
        if exists|x: int, y: int| #[trigger] area(x, y) && y * stride + x == i {
            let (x, y) = choose|x: int, y: int| #[trigger] area(x, y) && y * stride + x == i;
            assert(in_rect(8 * col, 16 * row, 8 * col + 8, 16 * row + 16, x, y));
            assert(false);
        }
        if exists|x: int, y: int| #[trigger] glyph(x, y) && y * stride + x == i {
            let (x, y) = choose|x: int, y: int| #[trigger] glyph(x, y) && y * stride + x == i;
            assert(in_rect(8 * col, 16 * row, 8 * col + 8, 16 * row + 16, x, y));
            assert(false);
        }
    }
    assert forall|dx: int, dy: int|
        0 <= dx < 8 && 0 <= dy < 16 && #[trigger] glyph_bit(font, c, dx, dy) && 0 <= (16 * row + dy) * stride + 8 * col + dx
            < pixels.len() implies d[(16 * row + dy) * stride + 8 * col + dx] == 0xFFFFFFFFu32 by {
        let x = 8 * col + dx;
        let y = 16 * row + dy;
        assert(glyph(x, y));
        assert(y * stride + x == (16 * row + dy) * stride + 8 * col + dx);
    }
    assert forall|x: int, y: int|
        #[trigger] in_rect(8 * col, 16 * row, 8 * col + 8, 16 * row + 16, x, y) && 0 <= y * stride + x < pixels.len() && (
        forall|dx: int, dy: int|
            0 <= dx < 8 && 0 <= dy < 16 && #[trigger] glyph_bit(font, c, dx, dy) ==> (16 * row + dy) * stride + 8 * col + dx
                != y * stride + x) implies d[y * stride + x] == 0u32 by {
        let i = y * stride + x;
        assert(area(x, y));
        assert(inner[i] == CELL_COLOR);
        if exists|gx: int, gy: int| #[trigger] glyph(gx, gy) && gy * stride + gx == i {
            let (gx, gy) = choose|gx: int, gy: int| #[trigger] glyph(gx, gy) && gy * stride + gx == i;
            let dx = gx - 8 * col;
            let dy = gy - 16 * row;
            assert(glyph_bit(font, c, dx, dy));
            assert((16 * row + dy) * stride + 8 * col + dx == i);
            assert(false);
        }
    }
}

/// The cursor and the framebuffer memory after writing `bytes`, starting
/// from the cursor `(col, row)` and the memory `pixels`.
pub open spec fn after_bytes(
    font: &Font,
    stride: int,
    cols: int,
    rows: int,
    col: int,
    row: int,
    pixels: Seq<u32>,
    bytes: Seq<u8>,
) -> (int, int, Seq<u32>)
    decreases bytes.len(),
{
    if bytes.len() == 0 {
        (col, row, pixels)
    } else {
        let before = after_bytes(font, stride, cols, rows, col, row, pixels, bytes.drop_last());
        let c = bytes.last();
        let drawn = if is_control(c) { before.2 } else { draw_cell(before.2, stride, font, before.0, before.1, c) };
        let cursor = cursor_after(before.0, before.1, cols, rows, c);
        (cursor.0, cursor.1, drawn)
    }
}

/// Printing one byte other than backspace, tab, carriage return and line
/// feed with the cursor at `(col, row)` changes no word of memory outside
/// the cell with top left corner `(8 * col, 16 * row)` (and the row and
/// column after it), lights the glyph's pixels there in white, and moves
/// the cursor one cell right, or to the start of the next row (the top row
/// after the last) past the last column.
pub proof fn lemma_print_byte(
    font: &Font,
    stride: int,
    cols: int,
    rows: int,
    col: int,
    row: int,
    pixels: Seq<u32>,
    c: u8,
)
    requires
        font.wf(),
        0 <= col,
        0 <= row,
        0 <= stride,
        c != 8 && c != 9 && c != 10 && c != 13,
    ensures
        ({
            let (ncol, nrow, after) = after_bytes(font, stride, cols, rows, col, row, pixels, seq![c]);
            &&& after.len() == pixels.len()
            &&& forall|i: int|
                0 <= i < pixels.len() && (forall|x: int, y: int|
                    #[trigger] in_rect(8 * col, 16 * row, 8 * col + 8, 16 * row + 16, x, y) ==> y * stride + x != i)
                    ==> #[trigger] after[i] == pixels[i]
            &&& forall|dx: int, dy: int|
                0 <= dx < 8 && 0 <= dy < 16 && #[trigger] glyph_bit(font, c, dx, dy) && 0 <= (16 * row + dy) * stride + 8
                    * col + dx < pixels.len() ==> after[(16 * row + dy) * stride + 8 * col + dx] == 0xFFFFFFFFu32
            &&& (ncol, nrow) == if col + 1 < cols {
                (col + 1, row)
            } else if row + 1 < rows {
                (0, row + 1)
            } else {
                (0, 0)
            }
        }),
{
    let bytes = seq![c];
    assert(bytes.drop_last() =~= Seq::<u8>::empty());
    assert(bytes.last() == c);
    assert(after_bytes(font, stride, cols, rows, col, row, pixels, Seq::<u8>::empty()) == (col, row, pixels));
    lemma_draw_cell_places(pixels, stride, font, col, row, c);
}

/// The cursor stays on the grid of `cols` by `rows` cells, or at its first
/// column or row where the grid has none.
pub open spec fn on_grid(col: int, row: int, cols: int, rows: int) -> bool {
    &&& 0 <= col
    &&& 0 <= row
    &&& col < cols || col == 0
    &&& row < rows || row == 0
}

/// A text console drawn on a framebuffer, in cells of 8 by 16 pixels.
pub struct Writer {
    col: u64,
    row: u64,
    fb: Framebuffer,
    font: Font,
}

impl Writer {
    pub closed spec fn col(&self) -> int {
        self.col as int
    }

    pub closed spec fn row(&self) -> int {
        self.row as int
    }

    pub closed spec fn fb(&self) -> Framebuffer {
        self.fb
    }

    pub closed spec fn font(&self) -> Font {
        self.font
    }

    /// Number of text columns.
    pub open spec fn cols(&self) -> int {
        self.fb().width() / 8
    }

    /// Number of text rows.
    pub open spec fn rows(&self) -> int {
        self.fb().height() / 16
    }

    pub open spec fn wf(&self) -> bool {
        &&& self.fb().wf()
        &&& self.font().wf()
        &&& on_grid(self.col(), self.row(), self.cols(), self.rows())
    }

    /// A console with its cursor in the top left cell.
    pub fn new(fb: Framebuffer, font: Font) -> (w: Writer)
        requires
            fb.wf(),
            font.wf(),
        ensures
            w.wf(),
            w.col() == 0,
            w.row() == 0,
            w.fb() == fb,
            w.font() == font,
    {
        Writer { col: 0, row: 0, fb, font }
    }

    pub fn framebuffer(&self) -> (r: &Framebuffer)
        ensures *r == self.fb(),
    {
        &self.fb
    }

    pub fn cursor(&self) -> (r: (u64, u64))
        ensures r.0 == self.col() && r.1 == self.row(),
    {
        (self.col, self.row)
    }

    /// Handles a byte from the mouse on the console's framebuffer, as
    /// `idt::mouse_interrupt` does; the text cursor stays where it is.
    pub fn mouse_interrupt(&mut self, mouse: &mut Mouse, byte: u8) -> (r: Option<MouseMovement>)
        requires
            old(self).wf(),
            old(mouse).wf(),
            old(mouse).cycle() == 2 ==> old(self).fb().width() > 0 && old(self).fb().height() > 0,
        ensures
            final(self).wf(),
            final(mouse).wf(),
            final(self).font() == old(self).font(),
            final(self).col() == old(self).col(),
            final(self).row() == old(self).row(),
            final(self).fb().same_shape(&old(self).fb()),
            handled(*old(mouse), *final(mouse), byte, old(self).fb().width() as u64, old(self).fb().height() as u64, r),
            redrawn(*old(mouse), *final(mouse), old(self).fb(), final(self).fb()),
    {
        mouse_interrupt(mouse, &mut self.fb, byte)
    }

    /// Paints the whole console `color`, as `framebuffer::clear` does; the
    /// cursor stays where it is.
    pub fn clear(&mut self, color: u32)
        requires
            old(self).wf(),
        ensures
            final(self).wf(),
            final(self).font() == old(self).font(),
            final(self).col() == old(self).col(),
            final(self).row() == old(self).row(),
            final(self).fb().same_shape(&old(self).fb()),
            untouched_outside(&old(self).fb(), &final(self).fb(), visible(&old(self).fb())),
            colored(&final(self).fb(), visible(&old(self).fb()), |x: int, y: int| color),
    {
        clear(&mut self.fb, color);
    }

    /// Moves the cursor to the next row, back to the top after the last.
    fn new_line(&mut self)
        requires
            old(self).wf(),
        ensures
            final(self).fb() == old(self).fb(),
            final(self).font() == old(self).font(),
            final(self).col() == old(self).col(),
            final(self).row() == next_row(old(self).row(), old(self).rows()),
            final(self).wf(),
    {
        let rows = self.fb.get_height() / 16;
        if self.row + 1 >= rows {
            self.row = 0;
        } else {
            self.row = self.row + 1;
        }
    }

    /// Prints `s`: control bytes move the cursor, every other byte clears its
    /// cell and draws its glyph in white.
    pub fn write_str(&mut self, s: &[u8])
        requires
            old(self).wf(),
        ensures
            final(self).wf(),
            final(self).font() == old(self).font(),
            final(self).fb().same_shape(&old(self).fb()),
            (final(self).col(), final(self).row(), final(self).fb().pixels()) == after_bytes(
                &old(self).font(),
                old(self).fb().stride(),
                old(self).cols(),
                old(self).rows(),
                old(self).col(),
                old(self).row(),
                old(self).fb().pixels(),
                s@,
            ),
    {
        let ghost start = *self;
        let cols = self.fb.get_width() / 8;
        let rows = self.fb.get_height() / 16;
        for i in 0..s.len()
            invariant
                self.wf(),
                self.font() == start.font(),
                self.fb().same_shape(&start.fb()),
                cols == start.cols(),
                rows == start.rows(),
                (self.col(), self.row(), self.fb().pixels()) == after_bytes(
                    &start.font(),
                    start.fb().stride(),
                    start.cols(),
                    start.rows(),
                    start.col(),
                    start.row(),
                    start.fb().pixels(),
                    s@.subrange(0, i as int),
                ),
        {
            let c = s[i];
            proof {
                let w = self.fb().width();
                let h = self.fb().height();
                self.fb().lemma_wf();
                assert(self.col() < cols ==> self.col() * 8 + 8 <= w) by (nonlinear_arith)
                    requires cols == w / 8, w >= 0;
                assert(self.row() < rows ==> self.row() * 16 + 16 <= h) by (nonlinear_arith)
                    requires rows == h / 16, h >= 0;
            }
            let ghost prefix = s@.subrange(0, i as int);
            proof {
                assert(s@.subrange(0, i + 1).drop_last() =~= prefix);
            }
            if c == 8 {
                self.col = self.col.saturating_sub(1);
            } else if c == 9 {
                if self.col + 8 >= cols {
                    self.col = 0;
                    self.new_line();
                } else {
                    self.col = self.col + 8;
                }
            } else if c == 13 {
                self.col = 0;
            } else if c == 10 {
                self.col = 0;
                self.new_line();
            } else {
                let x = self.col * 8;
                let y = self.row * 16;
                let ghost before = self.fb;
                rect(&mut self.fb, x, y, x + 8, y + 16, CELL_COLOR, CELL_COLOR);
                let ghost cleared = self.fb;
                character(&mut self.fb, &self.font, x, y, c, TEXT_COLOR);
                proof {
                    let area = |px: int, py: int| in_rect(x as int, y as int, x + 8, y + 16, px, py);
                    assert(area =~= cell_area(self.col as int, self.row as int));
                    lemma_painted(&before, &cleared, cell_area(self.col as int, self.row as int), CELL_COLOR);
                    assert((|px: int, py: int| glyph_lit(&self.font, c, x as int, y as int, px, py))
                        =~= cell_glyph(&self.font, c, self.col as int, self.row as int));
                    lemma_painted(&cleared, &self.fb, cell_glyph(&self.font, c, self.col as int, self.row as int), TEXT_COLOR);
                }
                if self.col + 1 >= cols {
                    self.col = 0;
                    self.new_line();
                } else {
                    self.col = self.col + 1;
                }
            }
        }
        proof {
            assert(s@.subrange(0, s@.len() as int) =~= s@);
        }
    }
}

} // verus!
