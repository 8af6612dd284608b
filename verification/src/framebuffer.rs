use vstd::prelude::*;

verus! {

/// A linear framebuffer of 32-bit pixels.
///
/// `pitch` is the length of one row in bytes, as the bootloader reports it;
/// the pixel at `(x, y)` lives at byte `y * pitch + x * 4`, so in the buffer
/// of 32-bit words it sits at index `y * (pitch / 4) + x`.
pub struct Framebuffer {
    width: u64,
    height: u64,
    pitch: u64,
    pixels: Vec<u32>,
}

impl Framebuffer {
    /// Number of visible columns.
    pub closed spec fn width(&self) -> int {
        self.width as int
    }

    /// Number of rows.
    pub closed spec fn height(&self) -> int {
        self.height as int
    }

    /// Number of 32-bit words in one row (visible columns plus padding).
    pub closed spec fn stride(&self) -> int {
        self.pitch as int / 4
    }

    /// The whole framebuffer memory, row after row.
    pub closed spec fn pixels(&self) -> Seq<u32> {
        self.pixels@
    }

    /// Where the pixel `(x, y)` lies in `pixels()`.
    pub open spec fn offset(&self, x: int, y: int) -> int {
        y * self.stride() + x
    }

    /// The pixel `(x, y)` lies inside the framebuffer memory.
    pub open spec fn in_memory(&self, x: int, y: int) -> bool {
        0 <= self.offset(x, y) < self.pixels().len()
    }

    /// The colour stored for the pixel `(x, y)`.
    pub open spec fn at(&self, x: int, y: int) -> u32 {
        self.pixels()[self.offset(x, y)]
    }

    pub closed spec fn wf(&self) -> bool {
        &&& self.pitch % 4 == 0
        &&& self.pixels@.len() == self.height * (self.pitch / 4)
    }

    /// Both framebuffers have the same dimensions.
    pub open spec fn same_shape(&self, other: &Framebuffer) -> bool {
        &&& self.width() == other.width()
        &&& self.height() == other.height()
        &&& self.stride() == other.stride()
        &&& self.pixels().len() == other.pixels().len()
    }

    pub proof fn lemma_wf(&self)
        requires
            self.wf(),
        ensures
            0 <= self.width(),
            0 <= self.stride(),
            0 <= self.height() <= u64::MAX,
            self.width() <= u64::MAX,
            self.pixels().len() == self.height() * self.stride(),
    {
        assert(0 <= self.height() * self.stride()) by (nonlinear_arith)
            requires 0 <= self.height(), 0 <= self.stride();
    }

    /// A black framebuffer of the given geometry; `None` where the pitch is
    /// not a whole number of 32-bit pixels (a pixel would then straddle two
    /// words, and its write would be misaligned), or the memory would not be
    /// addressable. A width past the pitch is kept: the pixels past the end
    /// of a row then share words with the next row.
    pub fn new(width: u64, height: u64, pitch: u64) -> (r: Option<Framebuffer>)
        ensures
            match r {
                Some(fb) => {
                    &&& fb.wf()
                    &&& fb.width() == width
                    &&& fb.height() == height
                    &&& fb.stride() == pitch / 4
                    &&& fb.pixels().len() == height * (pitch / 4)
                    &&& forall|i: int| 0 <= i < fb.pixels().len() ==> fb.pixels()[i] == 0
                },
                None => pitch % 4 != 0 || height * (pitch / 4) > usize::MAX,
            },
    {
        if pitch % 4 != 0 {
            return None;
        }
        let stride = pitch / 4;
        match height.checked_mul(stride) {
            None => None,
            Some(n) => {
                if n > usize::MAX as u64 {
                    None
                } else {
                    let pixels: Vec<u32> = vec![0u32; n as usize];
                    Some(Framebuffer { width, height, pitch, pixels })
                }
            },
        }
    }

    /// The framebuffer memory, row after row.
    pub fn words(&self) -> (r: &Vec<u32>)
        ensures
            r@ == self.pixels(),
    {
        &self.pixels
    }

    pub fn get_width(&self) -> (r: u64)
        ensures r == self.width(),
    {
        self.width
    }

    pub fn get_height(&self) -> (r: u64)
        ensures r == self.height(),
    {
        self.height
    }

    pub fn get_pitch(&self) -> (r: u64)
        requires self.wf(),
        ensures r == self.stride() * 4,
    {
        self.pitch
    }

    /// The colour at `(x, y)`, or `None` outside the framebuffer memory.
    pub fn read_pixel(&self, x: u64, y: u64) -> (r: Option<u32>)
        requires
            self.wf(),
        ensures
            r == if self.in_memory(x as int, y as int) { Some(self.at(x as int, y as int)) } else { None::<u32> },
    {
        match self.index_of(x, y) {
            Some(i) => Some(self.pixels[i]),
            None => None,
        }
    }

    fn index_of(&self, x: u64, y: u64) -> (r: Option<usize>)
        requires
            self.wf(),
        ensures
            match r {
                Some(i) => self.in_memory(x as int, y as int) && i == self.offset(x as int, y as int),
                None => !self.in_memory(x as int, y as int),
            },
    {
        proof {
            self.lemma_wf();
        }
        if y >= self.height {
            proof {
                assert(y as int * self.stride() + x >= self.height() * self.stride()) by (nonlinear_arith)
                    requires y >= self.height(), self.stride() >= 0, x >= 0;
            }
            return None;
        }
        let stride = self.pitch / 4;
        let len = self.pixels.len() as u64;
        proof {
            assert(y * stride <= len) by (nonlinear_arith)
                requires y < self.height(), stride >= 0, len == self.height() * stride;
        }
        let row = y * stride;
        if x < len - row {
            Some((row + x) as usize)
        } else {
            None
        }
    }
}

/// Every word of the framebuffer memory that no point of `hit` maps to
/// keeps the value it had in `before`.
pub open spec fn untouched_outside(before: &Framebuffer, after: &Framebuffer, hit: spec_fn(int, int) -> bool) -> bool {
    forall|i: int|
        0 <= i < before.pixels().len() && (forall|x: int, y: int| #[trigger] hit(x, y) ==> before.offset(x, y) != i)
            ==> after.pixels()[i] == before.pixels()[i]
}

/// Every point of `hit` that lies in the framebuffer memory holds `color(x, y)`.
pub open spec fn colored(fb: &Framebuffer, hit: spec_fn(int, int) -> bool, color: spec_fn(int, int) -> u32) -> bool {
    forall|x: int, y: int| #[trigger] hit(x, y) && fb.in_memory(x, y) ==> fb.at(x, y) == color(x, y)
}

/// One `pixel` write at `(px, py)` keeps untouched whatever neither the
/// points `done` nor `(px, py)` map to.
proof fn lemma_untouched_step(
    before: &Framebuffer,
    mid: &Framebuffer,
    after: &Framebuffer,
    done: spec_fn(int, int) -> bool,
    done2: spec_fn(int, int) -> bool,
    c: u32,
    px: int,
    py: int,
)
    requires
        mid.same_shape(before),
        after.same_shape(before),
        untouched_outside(before, mid, done),
        after.pixels() == if mid.in_memory(px, py) {
            mid.pixels().update(mid.offset(px, py), c)
        } else {
            mid.pixels()
        },
        forall|x: int, y: int| #[trigger] done2(x, y) <==> (done(x, y) || (x == px && y == py)),
    ensures
        untouched_outside(before, after, done2),
{
    assert forall|i: int|
        0 <= i < before.pixels().len() && (forall|x: int, y: int| #[trigger] done2(x, y) ==> before.offset(x, y) != i)
            implies after.pixels()[i] == before.pixels()[i] by {
        assert(done2(px, py));
        assert forall|x: int, y: int| #[trigger] done(x, y) implies before.offset(x, y) != i by {
            assert(done2(x, y));
        }
    }
}

/// One `pixel` write of `color(px, py)` at `(px, py)` extends a drawing of
/// the points `done` to one of `done` together with `(px, py)`, where no
/// point of `done` with another colour shares its word of memory.
proof fn lemma_colored_step(
    mid: &Framebuffer,
    after: &Framebuffer,
    done: spec_fn(int, int) -> bool,
    done2: spec_fn(int, int) -> bool,
    color: spec_fn(int, int) -> u32,
    px: int,
    py: int,
)
    requires
        after.same_shape(mid),
        colored(mid, done, color),
        after.pixels() == if mid.in_memory(px, py) {
            mid.pixels().update(mid.offset(px, py), color(px, py))
        } else {
            mid.pixels()
        },
        forall|x: int, y: int| #[trigger] done2(x, y) <==> (done(x, y) || (x == px && y == py)),
        forall|x: int, y: int|
            #[trigger] done(x, y) && mid.offset(x, y) == mid.offset(px, py) ==> color(x, y) == color(px, py),
    ensures
        colored(after, done2, color),
{
    assert forall|x: int, y: int| #[trigger] done2(x, y) && after.in_memory(x, y) implies after.at(x, y) == color(x, y) by {
        if x == px && y == py {
        } else {
            assert(done(x, y));
        }
    }
}

/// `pixels` (rows of `stride` words) with every word that some point of
/// `hit` maps to set to `color`.
pub open spec fn painted(pixels: Seq<u32>, stride: int, hit: spec_fn(int, int) -> bool, color: u32) -> Seq<u32> {
    Seq::new(
        pixels.len(),
        |i: int| if exists|x: int, y: int| #[trigger] hit(x, y) && y * stride + x == i { color } else { pixels[i] },
    )
}

/// A drawing of one colour, described by `untouched_outside` and `colored`,
/// is exactly `painted`.
pub proof fn lemma_painted(before: &Framebuffer, after: &Framebuffer, hit: spec_fn(int, int) -> bool, color: u32)
    requires
        after.same_shape(before),
        untouched_outside(before, after, hit),
        colored(after, hit, |x: int, y: int| color),
    ensures
        after.pixels() == painted(before.pixels(), before.stride(), hit, color),
{
    let p = painted(before.pixels(), before.stride(), hit, color);
    assert forall|i: int| 0 <= i < after.pixels().len() implies after.pixels()[i] == p[i] by {
        if exists|x: int, y: int| #[trigger] hit(x, y) && y * before.stride() + x == i {
            let (x, y) = choose|x: int, y: int| #[trigger] hit(x, y) && y * before.stride() + x == i;
            assert(after.in_memory(x, y));
        } else {
            assert forall|x: int, y: int| #[trigger] hit(x, y) implies before.offset(x, y) != i by {
            }
        }
    }
    assert(after.pixels() =~= p);
}

/// Writes one pixel of `color` at `(x, y)`.
///
/// The byte offset is `y * pitch + x * 4`; a write whose word would fall
/// outside the framebuffer memory is dropped.
pub fn pixel(fb: &mut Framebuffer, x: u64, y: u64, color: u32)
    requires
        old(fb).wf(),
    ensures
        final(fb).wf(),
        final(fb).same_shape(old(fb)),
        final(fb).pixels() == if old(fb).in_memory(x as int, y as int) {
            old(fb).pixels().update(old(fb).offset(x as int, y as int), color)
        } else {
            old(fb).pixels()
        },
{
    match fb.index_of(x, y) {
        Some(i) => {
            fb.pixels.set(i, color);
        },
        None => {},
    }
}

/// The points of the rectangle with corners `(x0, y0)` and `(x1, y1)`.
pub open spec fn in_rect(x0: int, y0: int, x1: int, y1: int, x: int, y: int) -> bool {
    x0 <= x <= x1 && y0 <= y <= y1
}

/// The colour `rect` gives the point `(x, y)`: `border` on the outline,
/// `fill` inside.
pub open spec fn rect_color(x0: int, y0: int, x1: int, y1: int, border: u32, fill: u32, x: int, y: int) -> u32 {
    if x == x0 || x == x1 || y == y0 || y == y1 {
        border
    } else {
        fill
    }
}

/// No two points of the rectangle that get different colours share a word of
/// memory: either one colour is used, or the rectangle has one row, or it
/// is narrower than a row of memory.
pub open spec fn rect_separable(fb: &Framebuffer, x0: int, y0: int, x1: int, y1: int, border: u32, fill: u32) -> bool {
    border == fill || y0 == y1 || x1 - x0 < fb.stride()
}

proof fn lemma_rows_apart(s: int, ax: int, ay: int, bx: int, by: int)
    requires
        s > 0,
        ay != by,
        -s < ax - bx < s,
    ensures
        ay * s + ax != by * s + bx,
{
    assert(ay * s + ax != by * s + bx) by (nonlinear_arith)
        requires s > 0, ay != by, -s < ax - bx < s;
}

/// The points that a raster scan over the columns `x0..=x1`, starting on row
/// `y0`, has visited before it reaches `(px, py)`.
pub open spec fn raster_prefix(x0: int, x1: int, y0: int, px: int, py: int) -> spec_fn(int, int) -> bool {
    |x: int, y: int| (x0 <= x <= x1 && y0 <= y < py) || (y == py && x0 <= x < px)
}

/// The points of `done` that no point of `done` in the next row shares a
/// word of memory with, in rows of `stride` words. For a drawing made row by
/// row these are the points written last to their word.
pub open spec fn last_written(done: spec_fn(int, int) -> bool, stride: int) -> spec_fn(int, int) -> bool {
    |x: int, y: int| done(x, y) && !done(x - stride, y + 1)
}

/// One `pixel` write of `color(px, py)` at `(px, py)` keeps the points
/// written last to their word coloured, where every earlier point that
/// shares the word of `(px, py)` has a point of the next row on it.
proof fn lemma_last_written_step(
    mid: &Framebuffer,
    after: &Framebuffer,
    done: spec_fn(int, int) -> bool,
    done2: spec_fn(int, int) -> bool,
    color: spec_fn(int, int) -> u32,
    px: int,
    py: int,
)
    requires
        after.same_shape(mid),
        colored(mid, last_written(done, mid.stride()), color),
        after.pixels() == if mid.in_memory(px, py) {
            mid.pixels().update(mid.offset(px, py), color(px, py))
        } else {
            mid.pixels()
        },
        forall|x: int, y: int| #[trigger] done2(x, y) <==> (done(x, y) || (x == px && y == py)),
        forall|x: int, y: int|
            #[trigger] done(x, y) && mid.offset(x, y) == mid.offset(px, py) ==> done2(x - mid.stride(), y + 1),
    ensures
        colored(after, last_written(done2, mid.stride()), color),
{
    let s = mid.stride();
    assert forall|x: int, y: int| #[trigger] last_written(done2, s)(x, y) && after.in_memory(x, y)
        implies after.at(x, y) == color(x, y) by {
        if x == px && y == py {
        } else {
            assert(done(x, y));
            assert(!done2(x - s, y + 1));
            assert(!done(x - s, y + 1));
            assert(last_written(done, s)(x, y));
        }
    }
}

/// In a raster scan over the columns `x0..=x1`, every point before
/// `(px, py)` that shares its word of memory has the point of the next row
/// on that word among the points up to `(px, py)`.
proof fn lemma_raster_same_word(s: int, x0: int, x1: int, y0: int, x: int, y: int, px: int, py: int)
    requires
        s >= 0,
        x0 <= px <= x1,
        raster_prefix(x0, x1, y0, px, py)(x, y),
        y * s + x == py * s + px,
    ensures
        raster_prefix(x0, x1, y0, px + 1, py)(x - s, y + 1),
{
    if y == py {
        assert(x == px);
    } else {
        assert(y < py);
        assert(px <= x - s <= x && (y + 1 == py ==> x - s == px)) by (nonlinear_arith)
            requires s >= 0, y < py, y * s + x == py * s + px;
        assert(x <= x1 && y0 <= y);
    }
}

/// Draws the rectangle with corners `(x0, y0)` and `(x1, y1)`, row by row from
/// the top: the outline in `border`, the inside in `fill`. Where points of
/// the rectangle share a word of memory (a rectangle wider than a row), the
/// word keeps the colour of the one drawn last.
pub fn rect(fb: &mut Framebuffer, x0: u64, y0: u64, x1: u64, y1: u64, border: u32, fill: u32)
    requires
        old(fb).wf(),
    ensures
        final(fb).wf(),
        final(fb).same_shape(old(fb)),
        untouched_outside(old(fb), final(fb), |x: int, y: int| in_rect(x0 as int, y0 as int, x1 as int, y1 as int, x, y)),
        rect_separable(old(fb), x0 as int, y0 as int, x1 as int, y1 as int, border, fill) ==> colored(
            final(fb),
            |x: int, y: int| in_rect(x0 as int, y0 as int, x1 as int, y1 as int, x, y),
            |x: int, y: int| rect_color(x0 as int, y0 as int, x1 as int, y1 as int, border, fill, x, y),
        ),
        colored(
            final(fb),
            rect_last(old(fb), x0 as int, y0 as int, x1 as int, y1 as int),
            |x: int, y: int| rect_color(x0 as int, y0 as int, x1 as int, y1 as int, border, fill, x, y),
        ),
{
    let ghost before = *fb;
    let ghost color = |x: int, y: int| rect_color(x0 as int, y0 as int, x1 as int, y1 as int, border, fill, x, y);
    let ghost sep = rect_separable(&before, x0 as int, y0 as int, x1 as int, y1 as int, border, fill);
    let ghost whole = |x: int, y: int| in_rect(x0 as int, y0 as int, x1 as int, y1 as int, x, y);
    if y0 > y1 || x0 > x1 {
        assert(untouched_outside(&before, fb, whole));
        assert(last_written(whole, before.stride()) =~= rect_last(&before, x0 as int, y0 as int, x1 as int, y1 as int));
        return;
    }
    let mut py = y0;
    loop
        invariant_except_break
            untouched_outside(&before, fb, raster_prefix(x0 as int, x1 as int, y0 as int, x0 as int, py as int)),
            sep ==> colored(fb, raster_prefix(x0 as int, x1 as int, y0 as int, x0 as int, py as int), color),
            colored(fb, last_written(raster_prefix(x0 as int, x1 as int, y0 as int, x0 as int, py as int), before.stride()), color),
        invariant
            y0 <= py <= y1,
            x0 <= x1,
            fb.wf(),
            fb.same_shape(&before),
            color == (|x: int, y: int| rect_color(x0 as int, y0 as int, x1 as int, y1 as int, border, fill, x, y)),
            sep == rect_separable(&before, x0 as int, y0 as int, x1 as int, y1 as int, border, fill),
        ensures
            fb.wf(),
            fb.same_shape(&before),
            untouched_outside(&before, fb, raster_prefix(x0 as int, x1 as int, y0 as int, x1 + 1, y1 as int)),
            sep ==> colored(fb, raster_prefix(x0 as int, x1 as int, y0 as int, x1 + 1, y1 as int), color),
            colored(fb, last_written(raster_prefix(x0 as int, x1 as int, y0 as int, x1 + 1, y1 as int), before.stride()), color),
        decreases y1 - py,
    {
        let mut px = x0;
        loop
            invariant_except_break
                untouched_outside(&before, fb, raster_prefix(x0 as int, x1 as int, y0 as int, px as int, py as int)),
                sep ==> colored(fb, raster_prefix(x0 as int, x1 as int, y0 as int, px as int, py as int), color),
                colored(fb, last_written(raster_prefix(x0 as int, x1 as int, y0 as int, px as int, py as int), before.stride()), color),
            invariant
                y0 <= py <= y1,
                x0 <= px <= x1,
                fb.wf(),
                fb.same_shape(&before),
                color == (|x: int, y: int| rect_color(x0 as int, y0 as int, x1 as int, y1 as int, border, fill, x, y)),
                sep == rect_separable(&before, x0 as int, y0 as int, x1 as int, y1 as int, border, fill),
            ensures
                fb.wf(),
                fb.same_shape(&before),
                untouched_outside(&before, fb, raster_prefix(x0 as int, x1 as int, y0 as int, x1 + 1, py as int)),
                sep ==> colored(fb, raster_prefix(x0 as int, x1 as int, y0 as int, x1 + 1, py as int), color),
                colored(fb, last_written(raster_prefix(x0 as int, x1 as int, y0 as int, x1 + 1, py as int), before.stride()), color),
            decreases x1 - px,
        {
            let c = if px == x0 || px == x1 || py == y0 || py == y1 { border } else { fill };
            let ghost mid = *fb;
            let ghost done = raster_prefix(x0 as int, x1 as int, y0 as int, px as int, py as int);
            let ghost done2 = raster_prefix(x0 as int, x1 as int, y0 as int, px + 1, py as int);
            pixel(fb, px, py, c);
            proof {
                lemma_untouched_step(&before, &mid, fb, done, done2, c, px as int, py as int);
                if sep {
                    assert forall|x: int, y: int|
                        #[trigger] done(x, y) && mid.offset(x, y) == mid.offset(px as int, py as int)
                            implies color(x, y) == color(px as int, py as int) by {
                        if border != fill && y != py {
                            mid.lemma_wf();
                            lemma_rows_apart(mid.stride(), x, y, px as int, py as int);
                        }
                    }
                    lemma_colored_step(&mid, fb, done, done2, color, px as int, py as int);
                }
                mid.lemma_wf();
                assert forall|x: int, y: int|
                    #[trigger] done(x, y) && mid.offset(x, y) == mid.offset(px as int, py as int)
                        implies done2(x - mid.stride(), y + 1) by {
                    lemma_raster_same_word(mid.stride(), x0 as int, x1 as int, y0 as int, x, y, px as int, py as int);
                }
                lemma_last_written_step(&mid, fb, done, done2, color, px as int, py as int);
            }
            if px == x1 {
                break;
            }
            px = px + 1;
        }
        if py == y1 {
            break;
        }
        proof {
            assert(raster_prefix(x0 as int, x1 as int, y0 as int, x1 + 1, py as int)
                =~= raster_prefix(x0 as int, x1 as int, y0 as int, x0 as int, py + 1));
        }
        py = py + 1;
    }
    proof {
        assert(raster_prefix(x0 as int, x1 as int, y0 as int, x1 + 1, y1 as int) =~= whole);
        assert(last_written(whole, before.stride()) =~= rect_last(&before, x0 as int, y0 as int, x1 as int, y1 as int));
    }
}

/// The points of the rectangle drawn last to their word of memory: each
/// word that the rectangle reaches holds the colour of one of them.
pub open spec fn rect_last(fb: &Framebuffer, x0: int, y0: int, x1: int, y1: int) -> spec_fn(int, int) -> bool {
    last_written(|x: int, y: int| in_rect(x0, y0, x1, y1, x, y), fb.stride())
}

/// The visible pixels: columns `0..width`, rows `0..height`.
pub open spec fn visible(fb: &Framebuffer) -> spec_fn(int, int) -> bool {
    |x: int, y: int| 0 <= x < fb.width() && 0 <= y < fb.height()
}

/// Paints every visible pixel `color`, row by row; the padding at the end of
/// each row keeps its value.
pub fn clear(fb: &mut Framebuffer, color: u32)
    requires
        old(fb).wf(),
    ensures
        final(fb).wf(),
        final(fb).same_shape(old(fb)),
        untouched_outside(old(fb), final(fb), visible(old(fb))),
        colored(final(fb), visible(old(fb)), |x: int, y: int| color),
        forall|x: int, y: int|
            0 <= x < old(fb).width() && 0 <= y < old(fb).height() && old(fb).in_memory(x, y) ==> #[trigger] final(fb).at(x, y)
                == color,
{
    let ghost before = *fb;
    let ghost paint = |x: int, y: int| color;
    let framebuffer_width = fb.width;
    let framebuffer_height = fb.height;
    proof {
        before.lemma_wf();
    }
    if framebuffer_width == 0 {
        assert(visible(&before) =~= raster_prefix(0, -1, 0, 0, 0));
        return;
    }
    for y in 0..framebuffer_height
        invariant
            framebuffer_width == before.width() > 0,
            framebuffer_height == before.height(),
            fb.wf(),
            fb.same_shape(&before),
            paint == (|x: int, y: int| color),
            untouched_outside(&before, fb, raster_prefix(0, framebuffer_width - 1, 0, 0, y as int)),
            colored(fb, raster_prefix(0, framebuffer_width - 1, 0, 0, y as int), paint),
    {
        for x in 0..framebuffer_width
            invariant
                framebuffer_width == before.width() > 0,
                framebuffer_height == before.height(),
                0 <= y < framebuffer_height,
                fb.wf(),
                fb.same_shape(&before),
                paint == (|x: int, y: int| color),
                untouched_outside(&before, fb, raster_prefix(0, framebuffer_width - 1, 0, x as int, y as int)),
                colored(fb, raster_prefix(0, framebuffer_width - 1, 0, x as int, y as int), paint),
        {
            let ghost mid = *fb;
            let ghost done = raster_prefix(0, framebuffer_width - 1, 0, x as int, y as int);
            let ghost done2 = raster_prefix(0, framebuffer_width - 1, 0, x + 1, y as int);
            pixel(fb, x, y, color);
            proof {
                lemma_untouched_step(&before, &mid, fb, done, done2, color, x as int, y as int);
                lemma_colored_step(&mid, fb, done, done2, paint, x as int, y as int);
            }
        }
        proof {
            assert(raster_prefix(0, framebuffer_width - 1, 0, framebuffer_width as int, y as int)
                =~= raster_prefix(0, framebuffer_width - 1, 0, 0, y + 1));
        }
    }
    proof {
        assert(raster_prefix(0, framebuffer_width - 1, 0, 0, framebuffer_height as int) =~= visible(&before));
        assert forall|x: int, y: int| 0 <= x < before.width() && 0 <= y < before.height() && before.in_memory(x, y)
            implies #[trigger] fb.at(x, y) == color by {
            assert(visible(&before)(x, y));
        }
    }
}

/// A bitmap font of 256 glyphs, 8 pixels wide and 16 rows high; each glyph
/// row is one byte whose most significant bit is the leftmost pixel.
pub struct Font {
    glyphs: Vec<u8>,
}

impl Font {
    pub closed spec fn bytes(&self) -> Seq<u8> {
        self.glyphs@
    }

    pub open spec fn wf(&self) -> bool {
        self.bytes().len() >= 4096
    }

    /// Row `row` of the glyph for byte `c`.
    pub open spec fn glyph_row(&self, c: u8, row: int) -> u8 {
        self.bytes()[c as int * 16 + row]
    }

    /// The font made of `glyphs`, 16 bytes per glyph; `None` where there are
    /// fewer than 256 glyphs. Bytes past the 256th glyph are never read.
    pub fn new(glyphs: Vec<u8>) -> (r: Option<Font>)
        ensures
            match r {
                Some(f) => f.wf() && f.bytes() == glyphs@,
                None => glyphs@.len() < 4096,
            },
    {
        if glyphs.len() >= 4096 {
            Some(Font { glyphs })
        } else {
            None
        }
    }
}

/// The pixel `(px, py)` is lit when the glyph for `c` is drawn with its top
/// left corner at `(x, y)`.
pub open spec fn glyph_lit(font: &Font, c: u8, x: int, y: int, px: int, py: int) -> bool {
    &&& x <= px < x + 8
    &&& y <= py < y + 16
    &&& font.glyph_row(c, py - y) & (128u8 >> ((px - x) as u8)) != 0
}

/// Draws the glyph for `c` with its top left corner at `(x, y)`: the lit
/// pixels of the glyph get `color`, every other pixel keeps its value.
pub fn character(fb: &mut Framebuffer, font: &Font, x: u64, y: u64, c: u8, color: u32)
    requires
        old(fb).wf(),
        font.wf(),
        x + 8 <= u64::MAX,
        y + 16 <= u64::MAX,
    ensures
        final(fb).wf(),
        final(fb).same_shape(old(fb)),
        untouched_outside(old(fb), final(fb), |px: int, py: int| glyph_lit(font, c, x as int, y as int, px, py)),
        colored(final(fb), |px: int, py: int| glyph_lit(font, c, x as int, y as int, px, py), |px: int, py: int| color),
{
    let ghost before = *fb;
    let ghost paint = |px: int, py: int| color;
    let ghost lit = |px: int, py: int| glyph_lit(font, c, x as int, y as int, px, py);
    let ghost done_at = |dx: int, dy: int|
        (|px: int, py: int| lit(px, py) && (py < y + dy || (py == y + dy && px < x + dx)));
    for dy in 0..16u64
        invariant
            before.wf(),
            font.wf(),
            x + 8 <= u64::MAX,
            y + 16 <= u64::MAX,
            fb.wf(),
            fb.same_shape(&before),
            paint == (|px: int, py: int| color),
            lit == (|px: int, py: int| glyph_lit(font, c, x as int, y as int, px, py)),
            done_at == (|dx: int, dy: int|
                (|px: int, py: int| lit(px, py) && (py < y + dy || (py == y + dy && px < x + dx)))),
            untouched_outside(&before, fb, done_at(0, dy as int)),
            colored(fb, done_at(0, dy as int), paint),
    {
        for dx in 0..8u64
            invariant
                before.wf(),
                font.wf(),
                0 <= dy < 16,
                x + 8 <= u64::MAX,
                y + 16 <= u64::MAX,
                fb.wf(),
                fb.same_shape(&before),
                paint == (|px: int, py: int| color),
                lit == (|px: int, py: int| glyph_lit(font, c, x as int, y as int, px, py)),
                done_at == (|dx: int, dy: int|
                    (|px: int, py: int| lit(px, py) && (py < y + dy || (py == y + dy && px < x + dx)))),
                untouched_outside(&before, fb, done_at(dx as int, dy as int)),
                colored(fb, done_at(dx as int, dy as int), paint),
        {
            let row = font.glyphs[(c as usize) * 16 + dy as usize];
            let mask = 128u8 >> (dx as u8);
            let px = x + dx;
            let py = y + dy;
            let ghost mid = *fb;
            let ghost done = done_at(dx as int, dy as int);
            let ghost done2 = done_at(dx + 1, dy as int);
            if row & mask != 0 {
                pixel(fb, px, py, color);
                proof {
                    assert forall|qx: int, qy: int| #[trigger] done2(qx, qy) <==> (done(qx, qy) || (qx == px && qy == py)) by {
                    }
                    lemma_untouched_step(&before, &mid, fb, done, done2, color, px as int, py as int);
                    lemma_colored_step(&mid, fb, done, done2, paint, px as int, py as int);
                }
            } else {
                proof {
                    assert(done2 =~= done);
                }
            }
        }
        proof {
            assert(done_at(8, dy as int) =~= done_at(0, dy + 1));
        }
    }
    proof {
        assert(done_at(0, 16) =~= lit);
    }
}

/// Absolute value.
pub open spec fn abs(v: int) -> int {
    if v < 0 {
        -v
    } else {
        v
    }
}

/// The points Bresenham's stepping visits from `(x, y)` with error term `err`
/// on its way to `(x1, y1)`, for at most `fuel` points.
///
/// `ddx` is the horizontal distance, `ddy` the negated vertical distance,
/// `sx` and `sy` the directions of travel. Each step plots the current point;
/// it moves along x when twice the error is at least `ddy`, and along y when
/// twice the error is at most `ddx`; it stops at `(x1, y1)`, or where a move
/// is due along an axis that has already reached its end.
pub open spec fn line_trace(
    x1: int,
    y1: int,
    ddx: int,
    ddy: int,
    sx: int,
    sy: int,
    x: int,
    y: int,
    err: int,
    fuel: nat,
) -> Seq<(int, int)>
    decreases fuel,
{
    if fuel == 0 {
        Seq::empty()
    } else if x == x1 && y == y1 {
        seq![(x, y)]
    } else if 2 * err >= ddy && x == x1 {
        seq![(x, y)]
    } else if 2 * err <= ddx && y == y1 {
        seq![(x, y)]
    } else {
        let nx = if 2 * err >= ddy { x + sx } else { x };
        let ny = if 2 * err <= ddx { y + sy } else { y };
        let nerr = err + (if 2 * err >= ddy { ddy } else { 0 }) + (if 2 * err <= ddx { ddx } else { 0 });
        seq![(x, y)] + line_trace(x1, y1, ddx, ddy, sx, sy, nx, ny, nerr, (fuel - 1) as nat)
    }
}

/// The points of the line from `(x0, y0)` to `(x1, y1)`, in drawing order.
pub open spec fn line_points(x0: int, y0: int, x1: int, y1: int) -> Seq<(int, int)> {
    let ddx = abs(x1 - x0);
    let ddy = -abs(y1 - y0);
    let sx = if x0 < x1 { 1int } else { -1int };
    let sy = if y0 < y1 { 1int } else { -1int };
    line_trace(x1, y1, ddx, ddy, sx, sy, x0, y0, ddx + ddy, (ddx - ddy + 1) as nat)
}

/// The point `(x, y)` is on the line from `(x0, y0)` to `(x1, y1)`.
pub open spec fn on_line(x0: int, y0: int, x1: int, y1: int) -> spec_fn(int, int) -> bool {
    |x: int, y: int| line_points(x0, y0, x1, y1).contains((x, y))
}

/// `v` lies between `a` and `b`, both included.
pub open spec fn between(a: int, b: int, v: int) -> bool {
    (a <= v <= b) || (b <= v <= a)
}

/// Two points of a line that follow each other are neighbours: they differ,
/// by at most one along each axis.
pub open spec fn neighbours(p: (int, int), q: (int, int)) -> bool {
    &&& p != q
    &&& abs(p.0 - q.0) <= 1
    &&& abs(p.1 - q.1) <= 1
}

proof fn lemma_trace(x1: int, y1: int, ddx: int, ddy: int, sx: int, sy: int, x: int, y: int, err: int, fuel: nat)
    requires
        ddx >= 0,
        ddy <= 0,
        sx == 1 || sx == -1,
        sy == 1 || sy == -1,
        if sx == 1 { x <= x1 } else { x >= x1 },
        if sy == 1 { y <= y1 } else { y >= y1 },
        abs(x1 - x) <= ddx,
        abs(y1 - y) <= -ddy,
        err == ddx + ddy + (-ddy) * abs(x1 - x) - ddx * abs(y1 - y),
        fuel >= abs(x1 - x) + abs(y1 - y) + 1,
    ensures
        line_trace(x1, y1, ddx, ddy, sx, sy, x, y, err, fuel).len() >= 1,
        line_trace(x1, y1, ddx, ddy, sx, sy, x, y, err, fuel)[0] == (x, y),
        line_trace(x1, y1, ddx, ddy, sx, sy, x, y, err, fuel).last() == (x1, y1),
        forall|i: int|
            0 <= i < line_trace(x1, y1, ddx, ddy, sx, sy, x, y, err, fuel).len() - 1 ==> neighbours(
                #[trigger] line_trace(x1, y1, ddx, ddy, sx, sy, x, y, err, fuel)[i],
                line_trace(x1, y1, ddx, ddy, sx, sy, x, y, err, fuel)[i + 1],
            ),
        forall|i: int|
            0 <= i < line_trace(x1, y1, ddx, ddy, sx, sy, x, y, err, fuel).len() ==> between(
                x,
                x1,
                (#[trigger] line_trace(x1, y1, ddx, ddy, sx, sy, x, y, err, fuel)[i]).0,
            ) && between(y, y1, line_trace(x1, y1, ddx, ddy, sx, sy, x, y, err, fuel)[i].1),
    decreases fuel,
{
    let t = line_trace(x1, y1, ddx, ddy, sx, sy, x, y, err, fuel);
    let rx = abs(x1 - x);
    let ry = abs(y1 - y);
    let dx = ddx;
    let dy = -ddy;
    if x == x1 && y == y1 {
        return;
    }
    if 2 * err >= ddy && x == x1 {
        assert(false) by (nonlinear_arith)
            requires
                rx == 0,
                ry >= 1,
                ry <= dy,
                dx >= 0,
                err == dx - dy + dy * rx - dx * ry,
                2 * err >= -dy,
        ;
    }
    if 2 * err <= ddx && y == y1 {
        assert(false) by (nonlinear_arith)
            requires
                ry == 0,
                rx >= 1,
                rx <= dx,
                dy >= 0,
                err == dx - dy + dy * rx - dx * ry,
                2 * err <= dx,
        ;
    }
    let nx = if 2 * err >= ddy { x + sx } else { x };
    let ny = if 2 * err <= ddx { y + sy } else { y };
    let ex = if 2 * err >= ddy { ddy } else { 0 };
    let ey = if 2 * err <= ddx { ddx } else { 0 };
    let nerr = err + ex + ey;
    let nrx = abs(x1 - nx);
    let nry = abs(y1 - ny);
    assert(nrx == if 2 * err >= ddy { rx - 1 } else { rx });
    assert(nry == if 2 * err <= ddx { ry - 1 } else { ry });
    assert(nerr == dx - dy + dy * nrx - dx * nry) by (nonlinear_arith)
        requires
            err == dx - dy + dy * rx - dx * ry,
            nerr == err + ex + ey,
            ex == (if 2 * err >= -dy { -dy } else { 0 }),
            ey == (if 2 * err <= dx { dx } else { 0 }),
            nrx == (if 2 * err >= -dy { rx - 1 } else { rx }),
            nry == (if 2 * err <= dx { ry - 1 } else { ry }),
    ;
    lemma_trace(x1, y1, ddx, ddy, sx, sy, nx, ny, nerr, (fuel - 1) as nat);
    let rest = line_trace(x1, y1, ddx, ddy, sx, sy, nx, ny, nerr, (fuel - 1) as nat);
    assert(t == seq![(x, y)] + rest);
    assert forall|i: int| 0 <= i < t.len() - 1 implies neighbours(#[trigger] t[i], t[i + 1]) by {
        if i > 0 {
            assert(t[i] == rest[i - 1]);
            assert(t[i + 1] == rest[i]);
        }
    }
    assert forall|i: int| 0 <= i < t.len() implies between(x, x1, (#[trigger] t[i]).0) && between(y, y1, t[i].1) by {
        if i > 0 {
            assert(t[i] == rest[i - 1]);
        }
    }
}

proof fn lemma_trace_len(x1: int, y1: int, ddx: int, ddy: int, sx: int, sy: int, x: int, y: int, err: int, fuel: nat)
    requires
        ddx >= 0,
        ddy <= 0,
        sx == 1 || sx == -1,
        sy == 1 || sy == -1,
        if sx == 1 { x <= x1 } else { x >= x1 },
        if sy == 1 { y <= y1 } else { y >= y1 },
        abs(x1 - x) <= ddx,
        abs(y1 - y) <= -ddy,
        err == ddx + ddy + (-ddy) * abs(x1 - x) - ddx * abs(y1 - y),
        fuel >= abs(x1 - x) + abs(y1 - y) + 1,
        ddx >= -ddy ==> 2 * err >= ddy,
        ddx < -ddy ==> 2 * err <= ddx,
    ensures
        line_trace(x1, y1, ddx, ddy, sx, sy, x, y, err, fuel).len() == (if ddx >= -ddy {
            abs(x1 - x)
        } else {
            abs(y1 - y)
        }) + 1,
    decreases fuel,
{
    let rx = abs(x1 - x);
    let ry = abs(y1 - y);
    let dx = ddx;
    let dy = -ddy;
    if x == x1 && y == y1 {
        return;
    }
    if 2 * err >= ddy && x == x1 {
        assert(false) by (nonlinear_arith)
            requires rx == 0, ry >= 1, ry <= dy, dx >= 0, err == dx - dy + dy * rx - dx * ry, 2 * err >= -dy;
    }
    if 2 * err <= ddx && y == y1 {
        assert(false) by (nonlinear_arith)
            requires ry == 0, rx >= 1, rx <= dx, dy >= 0, err == dx - dy + dy * rx - dx * ry, 2 * err <= dx;
    }
    if dx >= dy && x == x1 {
        assert(false) by (nonlinear_arith)
            requires rx == 0, ry >= 1, ry <= dy, dx >= 0, err == dx - dy + dy * rx - dx * ry, 2 * err >= -dy;
    }
    if dx < dy && y == y1 {
        assert(false) by (nonlinear_arith)
            requires ry == 0, rx >= 1, rx <= dx, dy >= 0, err == dx - dy + dy * rx - dx * ry, 2 * err <= dx;
    }
    let nx = if 2 * err >= ddy { x + sx } else { x };
    let ny = if 2 * err <= ddx { y + sy } else { y };
    let ex = if 2 * err >= ddy { ddy } else { 0 };
    let ey = if 2 * err <= ddx { ddx } else { 0 };
    let nerr = err + ex + ey;
    let nrx = abs(x1 - nx);
    let nry = abs(y1 - ny);
    assert(nrx == if 2 * err >= ddy { rx - 1 } else { rx });
    assert(nry == if 2 * err <= ddx { ry - 1 } else { ry });
    assert(nerr == dx - dy + dy * nrx - dx * nry) by (nonlinear_arith)
        requires
            err == dx - dy + dy * rx - dx * ry,
            nerr == err + ex + ey,
            ex == (if 2 * err >= -dy { -dy } else { 0 }),
            ey == (if 2 * err <= dx { dx } else { 0 }),
            nrx == (if 2 * err >= -dy { rx - 1 } else { rx }),
            nry == (if 2 * err <= dx { ry - 1 } else { ry }),
    ;
    lemma_trace_len(x1, y1, ddx, ddy, sx, sy, nx, ny, nerr, (fuel - 1) as nat);
}

/// The line from `(x0, y0)` to `(x1, y1)` starts at `(x0, y0)` and ends at
/// `(x1, y1)`, each point is a neighbour of the one before it, every point
/// lies in the box the two ends span, and there is one point per step along
/// the longer axis, plus one.
pub proof fn lemma_line_shape(x0: int, y0: int, x1: int, y1: int)
    ensures
        line_points(x0, y0, x1, y1).len() >= 1,
        line_points(x0, y0, x1, y1)[0] == (x0, y0),
        line_points(x0, y0, x1, y1).last() == (x1, y1),
        forall|i: int|
            0 <= i < line_points(x0, y0, x1, y1).len() - 1 ==> neighbours(
                #[trigger] line_points(x0, y0, x1, y1)[i],
                line_points(x0, y0, x1, y1)[i + 1],
            ),
        forall|i: int|
            0 <= i < line_points(x0, y0, x1, y1).len() ==> between(x0, x1, (#[trigger] line_points(x0, y0, x1, y1)[i]).0)
                && between(y0, y1, line_points(x0, y0, x1, y1)[i].1),
        line_points(x0, y0, x1, y1).len() == (if abs(x1 - x0) >= abs(y1 - y0) {
            abs(x1 - x0)
        } else {
            abs(y1 - y0)
        }) + 1,
{
    let ddx = abs(x1 - x0);
    let ddy = -abs(y1 - y0);
    let dx = ddx;
    let dy = -ddy;
    assert(ddx + ddy == dx - dy + dy * dx - dx * dy) by (nonlinear_arith)
        requires dx == ddx, dy == -ddy;
    lemma_trace(
        x1,
        y1,
        ddx,
        ddy,
        if x0 < x1 { 1int } else { -1int },
        if y0 < y1 { 1int } else { -1int },
        x0,
        y0,
        ddx + ddy,
        (ddx - ddy + 1) as nat,
    );
    lemma_trace_len(
        x1,
        y1,
        ddx,
        ddy,
        if x0 < x1 { 1int } else { -1int },
        if y0 < y1 { 1int } else { -1int },
        x0,
        y0,
        ddx + ddy,
        (ddx - ddy + 1) as nat,
    );
}

/// Draws the line from `(x0, y0)` to `(x1, y1)` in `color` with Bresenham's
/// algorithm.
pub fn line(fb: &mut Framebuffer, x0: u64, y0: u64, x1: u64, y1: u64, color: u32)
    requires
        old(fb).wf(),
        x0 <= i64::MAX,
        y0 <= i64::MAX,
        x1 <= i64::MAX,
        y1 <= i64::MAX,
    ensures
        final(fb).wf(),
        final(fb).same_shape(old(fb)),
        untouched_outside(old(fb), final(fb), on_line(x0 as int, y0 as int, x1 as int, y1 as int)),
        colored(final(fb), on_line(x0 as int, y0 as int, x1 as int, y1 as int), |x: int, y: int| color),
{
    let ghost before = *fb;
    let ghost paint = |x: int, y: int| color;
    let ghost points = line_points(x0 as int, y0 as int, x1 as int, y1 as int);
    let mut x: i64 = x0 as i64;
    let mut y: i64 = y0 as i64;
    let tx: i64 = x1 as i64;
    let ty: i64 = y1 as i64;
    let dx: i64 = if tx > x { tx - x } else { x - tx };
    let sx: i64 = if x < tx { 1 } else { -1 };
    let dy: i64 = if ty > y { y - ty } else { ty - y };
    let sy: i64 = if y < ty { 1 } else { -1 };
    let mut err: i128 = dx as i128 + dy as i128;
    let ghost mut done: Seq<(int, int)> = Seq::empty();
    let ghost mut fuel: nat = (dx - dy + 1) as nat;
    assert(untouched_outside(&before, fb, |px: int, py: int| done.contains((px, py))));
    loop
        invariant_except_break
            done + line_trace(x1 as int, y1 as int, dx as int, dy as int, sx as int, sy as int, x as int, y as int, err as int, fuel) == points,
            fuel >= abs(tx - x) + abs(ty - y) + 1,
            untouched_outside(&before, fb, |px: int, py: int| done.contains((px, py))),
            colored(fb, |px: int, py: int| done.contains((px, py)), paint),
            0 <= x <= i64::MAX,
            0 <= y <= i64::MAX,
            if sx == 1 { x <= tx } else { x >= tx },
            if sy == 1 { y <= ty } else { y >= ty },
            abs(tx - x) <= dx,
            abs(ty - y) <= -dy,
            -2 * (dx - dy) <= err <= 2 * (dx - dy),
        invariant
            fb.wf(),
            fb.same_shape(&before),
            paint == (|x: int, y: int| color),
            points == line_points(x0 as int, y0 as int, x1 as int, y1 as int),
            tx == x1,
            ty == y1,
            dx == abs(x1 - x0),
            dy == -abs(y1 - y0),
            sx == (if x0 < x1 { 1int } else { -1int }),
            sy == (if y0 < y1 { 1int } else { -1int }),
            0 <= dx <= i64::MAX,
            0 <= -dy <= i64::MAX,
        ensures
            fb.wf(),
            fb.same_shape(&before),
            untouched_outside(&before, fb, |px: int, py: int| points.contains((px, py))),
            colored(fb, |px: int, py: int| points.contains((px, py)), paint),
        decreases abs(tx - x) + abs(ty - y),
    {
        let ghost mid = *fb;
        let ghost d = |px: int, py: int| done.contains((px, py));
        let ghost d2 = |px: int, py: int| done.push((x as int, y as int)).contains((px, py));
        pixel(fb, x as u64, y as u64, color);
        proof {
            assert forall|px: int, py: int| #[trigger] d2(px, py) <==> (d(px, py) || (px == x && py == y)) by {
                if d2(px, py) && !(px == x && py == y) {
                    let k = done.push((x as int, y as int)).index_of((px, py));
                    assert(done[k] == (px, py));
                }
                if d(px, py) {
                    let k = done.index_of((px, py));
                    assert(done.push((x as int, y as int))[k] == (px, py));
                }
                if px == x && py == y {
                    assert(done.push((x as int, y as int))[done.len() as int] == (px, py));
                }
            }
            lemma_untouched_step(&before, &mid, fb, d, d2, color, x as int, y as int);
            lemma_colored_step(&mid, fb, d, d2, paint, x as int, y as int);
            let ghost rest = line_trace(x1 as int, y1 as int, dx as int, dy as int, sx as int, sy as int, x as int, y as int, err as int, fuel);
            assert(rest[0] == (x as int, y as int));
            done = done.push((x as int, y as int));
            fuel = (fuel - 1) as nat;
        }
        if x == tx && y == ty {
            proof {
                assert(done =~= points);
            }
            break;
        }
        let e2: i128 = 2 * err;
        if e2 >= dy as i128 {
            if x == tx {
                proof {
                    assert(done =~= points);
                }
                break;
            }
            err = err + dy as i128;
            x = x + sx;
        }
        if e2 <= dx as i128 {
            if y == ty {
                proof {
                    assert(done =~= points);
                }
                break;
            }
            err = err + dx as i128;
            y = y + sy;
        }
        proof {
            assert(done + line_trace(x1 as int, y1 as int, dx as int, dy as int, sx as int, sy as int, x as int, y as int, err as int, fuel) =~= points);
        }
    }
}

} // verus!
