//! A text console drawn on a linear framebuffer: 8x8 glyphs, a two-pixel-wide block
//! cursor, scrolling by one text row when the screen is full, and backspace.
use vstd::prelude::*;
use font8x8::UnicodeFonts;
use vstd::std_specs::iter::IteratorSpec;

verus! {

/// The 8x8 bitmap that the font8x8 crate's Basic Latin table holds for `c`, if it has
/// one: eight rows from the top, bit `x` of a row set where column `x` is lit.
pub uninterp spec fn basic_font_glyph(c: char) -> Option<Seq<u8>>;

/// font8x8's `BASIC_FONTS.get`, which looks `c` up in the Basic Latin table.  Its result
/// is named `basic_font_glyph(c)`; the table covers exactly U+0000 to U+007F, so there
/// is a bitmap exactly for those characters.  The bitmaps themselves are not stated.
#[verifier::external_body]
fn basic_glyph(c: char) -> (r: Option<[u8; 8]>)
    ensures
        r.deep_view() == basic_font_glyph(c),
        r is Some <==> (c as u32) < 128,
{
    font8x8::BASIC_FONTS.get(c)
}

/// Scale factor of the glyphs.
pub const SCALE: usize = 1;

/// Side of a glyph in font pixels.
pub const SIZE: usize = 8;

/// Side of a character cell on screen, in pixels.
pub const TOTAL: usize = 8;

/// A colour, one byte per channel.
#[derive(Debug, Clone, Copy, PartialEq, Eq)]
pub struct Rgba {
    red: u8,
    green: u8,
    blue: u8,
    alpha: u8,
}

impl Rgba {
    pub closed spec fn red_spec(&self) -> u8 {
        self.red
    }

    pub closed spec fn green_spec(&self) -> u8 {
        self.green
    }

    pub closed spec fn blue_spec(&self) -> u8 {
        self.blue
    }

    pub closed spec fn alpha_spec(&self) -> u8 {
        self.alpha
    }

    /// The colour whose code is `0xRRGGBBAA`.
    pub fn new(color_code: u32) -> (r: Rgba)
        ensures
            r == Rgba::new_spec(color_code),
            r.red_spec() == (color_code >> 24) & 0xFF,
            r.green_spec() == (color_code >> 16) & 0xFF,
            r.blue_spec() == (color_code >> 8) & 0xFF,
            r.alpha_spec() == color_code & 0xFF,
    {
        assert(((color_code >> 24) & 0xFF) <= 0xFF && ((color_code >> 16) & 0xFF) <= 0xFF && ((color_code
            >> 8) & 0xFF) <= 0xFF && (color_code & 0xFF) <= 0xFF) by (bit_vector);
        Rgba {
            red: ((color_code >> 24) & 0xFF) as u8,
            green: ((color_code >> 16) & 0xFF) as u8,
            blue: ((color_code >> 8) & 0xFF) as u8,
            alpha: (color_code & 0xFF) as u8,
        }
    }

    /// The colour whose code is `color_code`, as `new` builds it.
    pub closed spec fn new_spec(color_code: u32) -> Rgba {
        Rgba {
            red: ((color_code >> 24) & 0xFF) as u8,
            green: ((color_code >> 16) & 0xFF) as u8,
            blue: ((color_code >> 8) & 0xFF) as u8,
            alpha: (color_code & 0xFF) as u8,
        }
    }

    #[verifier::when_used_as_spec(red_spec)]
    pub fn red(&self) -> (r: u8)
        ensures
            r == self.red_spec(),
    {
        self.red
    }

    #[verifier::when_used_as_spec(green_spec)]
    pub fn green(&self) -> (r: u8)
        ensures
            r == self.green_spec(),
    {
        self.green
    }

    #[verifier::when_used_as_spec(blue_spec)]
    pub fn blue(&self) -> (r: u8)
        ensures
            r == self.blue_spec(),
    {
        self.blue
    }

    #[verifier::when_used_as_spec(alpha_spec)]
    pub fn alpha(&self) -> (r: u8)
        ensures
            r == self.alpha_spec(),
    {
        self.alpha
    }
}

/// How the bytes of a pixel are ordered.
#[derive(Debug, Clone, Copy, PartialEq, Eq, Structural)]
pub enum PixelKind {
    /// Red, green, blue, then padding.
    Rgb,
    /// Blue, green, red, then padding.
    Bgr,
    /// Any other layout; the console does not draw on it.
    Other,
}

/// The geometry of a framebuffer.
#[derive(Debug, Clone, Copy, PartialEq, Eq)]
pub struct FrameInfo {
    /// Bytes of the whole buffer.
    pub byte_len: usize,
    /// Visible pixels per row.
    pub width: usize,
    /// Visible rows.
    pub height: usize,
    pub pixel_format: PixelKind,
    pub bytes_per_pixel: usize,
    /// Pixels from the start of one row to the start of the next.
    pub stride: usize,
}

impl FrameInfo {
    /// Whether the console can draw on a framebuffer of this geometry.
    pub fn fits_console(&self) -> (r: bool)
        ensures
            r == info_wf(*self),
    {
        if self.width < TOTAL || self.height < TOTAL || self.width > self.stride || self.bytes_per_pixel < 1 {
            return false;
        }
        if self.pixel_format != PixelKind::Other && self.bytes_per_pixel < 3 {
            return false;
        }
        let h = self.height as u128;
        let s = self.stride as u128;
        let b = self.bytes_per_pixel as u128;
        assert(h * s <= u64::MAX * u64::MAX) by (nonlinear_arith)
            requires
                h <= u64::MAX,
                s <= u64::MAX,
        ;
        let hs = h * s;
        if hs > self.byte_len as u128 {
            assert(hs * b >= hs) by (nonlinear_arith)
                requires
                    b >= 1,
                    hs >= 0,
            ;
            return false;
        }
        assert(hs * b <= (self.byte_len as u128) * b) by (nonlinear_arith)
            requires
                hs <= self.byte_len,
                b >= 0,
        ;
        assert((self.byte_len as u128) * b <= u64::MAX * u64::MAX) by (nonlinear_arith)
            requires
                self.byte_len <= u64::MAX,
                b <= u64::MAX,
                b >= 0,
        ;
        hs * b <= self.byte_len as u128
    }
}

/// Whether pixels of this format are drawn.
pub open spec fn drawable(info: FrameInfo) -> bool {
    info.pixel_format != PixelKind::Other
}

/// Geometry the console works on: at least one cell each way, rows that fit in the
/// stride, all visible rows inside the buffer, and room for the three colour bytes
/// that a drawn pixel format puts first in each pixel.
pub open spec fn info_wf(info: FrameInfo) -> bool {
    &&& info.width >= TOTAL
    &&& info.height >= TOTAL
    &&& info.width <= info.stride
    &&& info.bytes_per_pixel >= 1
    &&& info.height * info.stride * info.bytes_per_pixel <= info.byte_len
    &&& drawable(info) ==> info.bytes_per_pixel >= 3
}

/// Index of the first byte of pixel `(x, y)`.
pub open spec fn pixel_base(info: FrameInfo, x: int, y: int) -> int {
    (y * info.stride + x) * info.bytes_per_pixel
}

/// Byte `k` is one of the three colour bytes of pixel `(x, y)`.
pub open spec fn covers(info: FrameInfo, x: int, y: int, k: int) -> bool {
    pixel_base(info, x, y) <= k < pixel_base(info, x, y) + 3
}

/// Byte `k` is a colour byte of some pixel `(x, y)` for which `inside(x, y)` holds.
pub open spec fn painted(info: FrameInfo, inside: spec_fn(int, int) -> bool, k: int) -> bool {
    exists|x: int, y: int| inside(x, y) && #[trigger] covers(info, x, y, k)
}

/// Whether pixel `(x, y)` can be drawn: its index computes without overflow and, for
/// a drawn format, its colour bytes lie in the buffer.
pub open spec fn pixel_fits(info: FrameInfo, x: int, y: int) -> bool {
    &&& 0 <= x
    &&& 0 <= y
    &&& if drawable(info) {
        pixel_base(info, x, y) + 3 <= info.byte_len
    } else {
        pixel_base(info, x, y) <= usize::MAX
    }
}

/// Whether every pixel of `[x0, x0 + w) x [y0, y0 + h)` can be drawn (its last
/// pixel, which has the largest index, can).
pub open spec fn rect_fits(info: FrameInfo, x0: int, y0: int, w: int, h: int) -> bool {
    w <= 0 || h <= 0 || pixel_fits(info, x0 + w - 1, y0 + h - 1)
}

/// The byte that channel `ch` of a pixel of colour `color` holds.
pub open spec fn channel_value(info: FrameInfo, color: Rgba, ch: int) -> u8 {
    if info.pixel_format == PixelKind::Rgb {
        if ch == 0 { color.red_spec() } else if ch == 1 { color.green_spec() } else { color.blue_spec() }
    } else {
        if ch == 0 { color.blue_spec() } else if ch == 1 { color.green_spec() } else { color.red_spec() }
    }
}

/// `buf` with every pixel `(x, y)` for which `inside(x, y)` holds painted in `color`:
/// the three colour bytes at the start of the pixel are set, as their place in the
/// pixel says, and any other byte is left.
pub open spec fn paint(buf: Seq<u8>, info: FrameInfo, color: Rgba, inside: spec_fn(int, int) -> bool) -> Seq<u8> {
    if !drawable(info) {
        buf
    } else {
        Seq::new(
            buf.len(),
            |k: int|
                if painted(info, inside, k) {
                    channel_value(info, color, k % (info.bytes_per_pixel as int))
                } else {
                    buf[k]
                },
        )
    }
}

/// The rectangle of pixels `[x0, x0 + w) x [y0, y0 + h)`.
pub open spec fn rect(x0: int, y0: int, w: int, h: int) -> spec_fn(int, int) -> bool {
    |x: int, y: int| x0 <= x < x0 + w && y0 <= y < y0 + h
}

/// Whether every pixel of `[x0, x0 + w) x [y0, y0 + h)` can be drawn; see `rect_fits`.
pub fn rect_fits_exec(info: &FrameInfo, x0: usize, y0: usize, w: usize, h: usize) -> (r: bool)
    ensures
        r == rect_fits(*info, x0 as int, y0 as int, w as int, h as int),
{
    if w == 0 || h == 0 {
        return true;
    }
    let x = x0 as u128 + (w as u128 - 1);
    let y = y0 as u128 + (h as u128 - 1);
    let s = info.stride as u128;
    let b = info.bytes_per_pixel as u128;
    if b == 0 {
        proof {
            assert(pixel_base(*info, x as int, y as int) == 0) by (nonlinear_arith)
                requires
                    info.bytes_per_pixel == 0,
            ;
        }
        return if drawable_exec(info) { 3 <= info.byte_len } else { true };
    }
    let ys = match y.checked_mul(s) {
        Some(v) => v,
        None => {
            proof {
                assert((y * s + x) * b >= y * s) by (nonlinear_arith)
                    requires
                        b >= 1,
                        y >= 0,
                        s >= 0,
                        x >= 0,
                ;
            }
            return false;
        },
    };
    let p = match ys.checked_add(x) {
        Some(v) => v,
        None => {
            proof {
                assert((ys + x) * b >= ys + x) by (nonlinear_arith)
                    requires
                        b >= 1,
                        ys >= 0,
                        x >= 0,
                ;
            }
            return false;
        },
    };
    let base = match p.checked_mul(b) {
        Some(v) => v,
        None => {
            return false;
        },
    };
    if drawable_exec(info) {
        match base.checked_add(3) {
            Some(end) => end <= info.byte_len as u128,
            None => false,
        }
    } else {
        base <= usize::MAX as u128
    }
}

/// Whether pixels of this format are drawn; see `drawable`.
pub fn drawable_exec(info: &FrameInfo) -> (r: bool)
    ensures
        r == drawable(*info),
{
    match info.pixel_format {
        PixelKind::Other => false,
        _ => true,
    }
}

/// Painting two pixel sets one after the other in one colour paints their union.
pub proof fn lemma_paint_union(
    buf: Seq<u8>,
    info: FrameInfo,
    color: Rgba,
    p: spec_fn(int, int) -> bool,
    q: spec_fn(int, int) -> bool,
)
    ensures
        paint(paint(buf, info, color, p), info, color, q) == paint(
            buf,
            info,
            color,
            |x: int, y: int| p(x, y) || q(x, y),
        ),
{
    let pq = |x: int, y: int| p(x, y) || q(x, y);
    assert forall|k: int| #[trigger] painted(info, pq, k) == (painted(info, p, k) || painted(info, q, k)) by {
        if painted(info, pq, k) {
            let (x, y) = choose|x: int, y: int| pq(x, y) && #[trigger] covers(info, x, y, k);
            if p(x, y) {
                assert(covers(info, x, y, k));
            } else {
                assert(covers(info, x, y, k));
            }
        }
        if painted(info, p, k) {
            let (x, y) = choose|x: int, y: int| p(x, y) && #[trigger] covers(info, x, y, k);
            assert(pq(x, y) && covers(info, x, y, k));
        }
        if painted(info, q, k) {
            let (x, y) = choose|x: int, y: int| q(x, y) && #[trigger] covers(info, x, y, k);
            assert(pq(x, y) && covers(info, x, y, k));
        }
    }
    assert(paint(paint(buf, info, color, p), info, color, q) =~= paint(buf, info, color, pq));
}

/// The colour bytes of pixel `(x, y)` are the ones its single-pixel painting sets, and
/// each sits at its place in the pixel.
pub proof fn lemma_single_pixel(info: FrameInfo, x: int, y: int, k: int)
    requires
        info.bytes_per_pixel >= 3,
        0 <= x,
        0 <= y,
        info.stride >= 0,
    ensures
        painted(info, |a: int, b: int| a == x && b == y, k) == covers(info, x, y, k),
        covers(info, x, y, k) ==> k % (info.bytes_per_pixel as int) == k - pixel_base(info, x, y),
{
    let one = |a: int, b: int| a == x && b == y;
    if covers(info, x, y, k) {
        assert(one(x, y));
        let p = y * info.stride + x;
        vstd::arithmetic::div_mod::lemma_fundamental_div_mod_converse_mod(
            k,
            info.bytes_per_pixel as int,
            p,
            k - pixel_base(info, x, y),
        );
    }
    if painted(info, one, k) {
        let (a, b) = choose|a: int, b: int| one(a, b) && #[trigger] covers(info, a, b, k);
        assert(a == x && b == y);
    }
}

/// Every pixel of a rectangle that fits can be drawn.
pub proof fn lemma_rect_fits(info: FrameInfo, x0: int, y0: int, w: int, h: int, x: int, y: int)
    requires
        rect_fits(info, x0, y0, w, h),
        x0 <= x < x0 + w,
        y0 <= y < y0 + h,
        0 <= x0,
        0 <= y0,
    ensures
        pixel_fits(info, x, y),
{
    let s = info.stride as int;
    let b = info.bytes_per_pixel as int;
    let X = x0 + w - 1;
    let Y = y0 + h - 1;
    assert((y * s + x) * b <= (Y * s + X) * b) by (nonlinear_arith)
        requires
            0 <= x <= X,
            0 <= y <= Y,
            s >= 0,
            b >= 0,
    ;
}

/// Every visible pixel lies inside the buffer, with room for its colour bytes.
pub proof fn lemma_pixel_in_buffer(info: FrameInfo, x: int, y: int)
    requires
        info_wf(info),
        0 <= x < info.width,
        0 <= y < info.height,
    ensures
        pixel_fits(info, x, y),
        pixel_base(info, x, y) + info.bytes_per_pixel <= info.byte_len,
        info.height * info.stride <= info.byte_len,
{
    let stride = info.stride as int;
    let bpp = info.bytes_per_pixel as int;
    let h = info.height as int;
    assert(y * stride + x < h * stride) by (nonlinear_arith)
        requires
            0 <= x < stride,
            0 <= y < h,
    ;
    assert(h * stride <= h * stride * bpp) by (nonlinear_arith)
        requires
            0 <= h,
            0 <= stride,
            bpp >= 1,
    ;
    let p = y * stride + x;
    assert(p * bpp + bpp <= h * stride * bpp) by (nonlinear_arith)
        requires
            0 <= p < h * stride,
            bpp >= 1,
    ;
    assert(0 <= y * stride + x) by (nonlinear_arith)
        requires
            0 <= x,
            0 <= y,
            0 <= stride,
    ;
    assert(0 <= p * bpp) by (nonlinear_arith)
        requires
            0 <= p,
            0 <= bpp,
    ;
}

/// A cell on the screen can be drawn whole.
pub proof fn lemma_cell_on_screen(info: FrameInfo, x0: int, y0: int, w: int, h: int)
    requires
        info_wf(info),
        0 <= x0,
        0 <= y0,
        x0 + w <= info.width,
        y0 + h <= info.height,
    ensures
        rect_fits(info, x0, y0, w, h),
{
    if w > 0 && h > 0 {
        lemma_pixel_in_buffer(info, x0 + w - 1, y0 + h - 1);
    }
}

/// A text row's worth of bytes fits in the buffer.
pub proof fn lemma_text_row_fits(info: FrameInfo)
    requires
        info_wf(info),
    ensures
        info.stride * info.bytes_per_pixel <= info.byte_len,
        text_row_bytes(info) <= info.byte_len,
        info.height * TOTAL <= info.byte_len,
        info.width * TOTAL <= info.byte_len,
{
    let s = info.stride as int;
    let b = info.bytes_per_pixel as int;
    let h = info.height as int;
    assert(s * b * TOTAL <= h * s * b && s * b <= s * b * TOTAL) by (nonlinear_arith)
        requires
            h >= TOTAL,
            s >= 0,
            b >= 0,
    ;
    assert(h * TOTAL <= h * s * b && (info.width as int) * TOTAL <= h * s * b) by (nonlinear_arith)
        requires
            h >= TOTAL,
            s >= TOTAL,
            s >= info.width,
            info.width >= 0,
            b >= 1,
    ;
}

/// What the console shows and where its cursor is.
pub struct Screen {
    pub buf: Seq<u8>,
    pub row: int,
    pub column: int,
}

/// The colour of a cleared pixel.
pub closed spec fn black() -> Rgba {
    Rgba { red: 0, green: 0, blue: 0, alpha: 0 }
}

/// Bytes of one text row: `TOTAL` pixel rows.
pub open spec fn text_row_bytes(info: FrameInfo) -> int {
    info.stride * info.bytes_per_pixel * TOTAL
}

/// `buf` moved up by one text row, with the freed bytes at the end cleared.
pub open spec fn scrolled(buf: Seq<u8>, info: FrameInfo) -> Seq<u8> {
    let t = text_row_bytes(info);
    buf.skip(t) + Seq::new(t as nat, |i: int| 0u8)
}

/// The cursor's cell cleared.
pub open spec fn cell_cleared(s: Screen, info: FrameInfo) -> Screen {
    Screen { buf: paint(s.buf, info, black(), rect(s.column, s.row, TOTAL as int, TOTAL as int)), ..s }
}

/// The cursor, two pixels wide and a cell high, drawn at its cell in `color`.
pub open spec fn cursor_drawn(s: Screen, info: FrameInfo, color: Rgba) -> Screen {
    Screen { buf: paint(s.buf, info, color, rect(s.column, s.row, 2, TOTAL as int)), ..s }
}

/// The cursor moved to the start of the next text row; when that row is off the
/// bottom of the screen the screen scrolls up one text row instead.
pub open spec fn line_fed(s: Screen, info: FrameInfo) -> Screen {
    let r = s.row + TOTAL;
    if r + TOTAL > info.height {
        Screen { buf: scrolled(s.buf, info), row: r - TOTAL, column: 0 }
    } else {
        Screen { buf: s.buf, row: r, column: 0 }
    }
}

/// Whether bit `x` of glyph row `bits` is set.
pub open spec fn glyph_bit(bits: u8, x: usize) -> bool {
    bits & (1u8 << x) != 0
}

/// The pixels of the cell at `(column, row)` that glyph `g` lights.
pub open spec fn glyph_pixels(column: int, row: int, g: Seq<u8>) -> spec_fn(int, int) -> bool {
    |x: int, y: int|
        column <= x < column + TOTAL && row <= y < row + TOTAL && glyph_bit(
            g[y - row],
            (x - column) as usize,
        )
}

/// Glyph `glyph`, if there is one, drawn in the cursor's cell in `color`.
pub open spec fn glyph_drawn(s: Screen, info: FrameInfo, color: Rgba, glyph: Option<Seq<u8>>) -> Screen {
    match glyph {
        Some(g) => Screen { buf: paint(s.buf, info, color, glyph_pixels(s.column, s.row, g)), ..s },
        None => s,
    }
}

/// Backspace: the cursor's cell is cleared and the cursor steps back one cell on its
/// text row, or from the start of a row to the last cell of the row above; that cell
/// is cleared and the cursor is drawn there.  In the top-left cell only the cursor is
/// drawn again.
pub open spec fn char_deleted(s: Screen, info: FrameInfo, color: Rgba) -> Screen {
    let s1 = cell_cleared(s, info);
    if s1.column >= TOTAL {
        cursor_drawn(cell_cleared(Screen { column: s1.column - TOTAL, ..s1 }, info), info, color)
    } else if s1.row == 0 {
        cursor_drawn(s1, info, color)
    } else {
        cursor_drawn(
            cell_cleared(Screen { row: s1.row - TOTAL, column: info.width - TOTAL, ..s1 }, info),
            info,
            color,
        )
    }
}

/// Writing character `c`: backspace deletes; otherwise the cursor is cleared, a newline
/// moves to the next text row, and any other character is drawn in the cursor's cell
/// (on the next text row if the cell does not fit), after which the cursor advances,
/// wrapping at the end of the row.  The cursor is then drawn again.
pub open spec fn char_written(s: Screen, info: FrameInfo, color: Rgba, c: char) -> Screen {
    if c == '\u{8}' {
        char_deleted(s, info, color)
    } else {
        let s1 = cell_cleared(s, info);
        if c == '\n' {
            cursor_drawn(line_fed(s1, info), info, color)
        } else {
            let s2 = if s1.column + TOTAL > info.width { line_fed(s1, info) } else { s1 };
            let s3 = glyph_drawn(s2, info, color, basic_font_glyph(c));
            let s4 = Screen { column: s3.column + TOTAL, ..s3 };
            let s5 = if s4.column >= info.width { line_fed(s4, info) } else { s4 };
            cursor_drawn(s5, info, color)
        }
    }
}

/// Whether the cursor's cell can be cleared.
pub open spec fn cell_fits(s: Screen, info: FrameInfo) -> bool {
    rect_fits(info, s.column, s.row, TOTAL as int, TOTAL as int)
}

/// Whether the cursor can be drawn.
pub open spec fn bar_fits(s: Screen, info: FrameInfo) -> bool {
    rect_fits(info, s.column, s.row, 2, TOTAL as int)
}

/// Whether writing `c` at `s` can be done: the cursor's cell, where the cursor is
/// cleared, and for other characters than backspace the cursor where it is drawn at
/// the end, lie inside the buffer.
pub open spec fn can_write(s: Screen, info: FrameInfo, color: Rgba, c: char) -> bool {
    if c == '\u{8}' {
        cell_fits(s, info)
    } else {
        cell_fits(s, info) && bar_fits(char_written(s, info, color, c), info)
    }
}

/// The console after writing the characters `cs` one by one, starting at `s`.
pub open spec fn string_written(s: Screen, info: FrameInfo, color: Rgba, cs: Seq<char>) -> Screen
    decreases cs.len(),
{
    if cs.len() == 0 {
        s
    } else {
        char_written(string_written(s, info, color, cs.drop_last()), info, color, cs.last())
    }
}

/// Whether each character of `cs` can be written where the ones before it leave the
/// console.
pub open spec fn can_write_string(s: Screen, info: FrameInfo, color: Rgba, cs: Seq<char>) -> bool
    decreases cs.len(),
{
    cs.len() == 0 || (can_write_string(s, info, color, cs.drop_last()) && can_write(
        string_written(s, info, color, cs.drop_last()),
        info,
        color,
        cs.last(),
    ))
}

/// A string that can be written can be written up to any of its prefixes, and the
/// character after the prefix can be written where the prefix leaves the console.
pub proof fn lemma_can_write_prefix(s: Screen, info: FrameInfo, color: Rgba, cs: Seq<char>, n: int)
    requires
        can_write_string(s, info, color, cs),
        0 < n <= cs.len(),
    ensures
        can_write_string(s, info, color, cs.take(n)),
        can_write(string_written(s, info, color, cs.take(n - 1)), info, color, cs[n - 1]),
    decreases cs.len() - n,
{
    let p = cs.take(n);
    if n == cs.len() {
        assert(p =~= cs);
    } else {
        lemma_can_write_prefix(s, info, color, cs, n + 1);
        let u = cs.take(n + 1);
        assert(u.drop_last() =~= p);
        // a string that can be written can be written without its last character
        assert(can_write_string(s, info, color, u.drop_last()));
    }
    assert(can_write_string(s, info, color, p));
    assert(p.len() == n);
    assert(p.drop_last() =~= cs.take(n - 1));
    assert(p.last() == cs[n - 1]);
    // unfold the last step of writing the prefix
    assert(can_write(string_written(s, info, color, p.drop_last()), info, color, p.last()));
}

/// The cursor's cell starts a whole number of cells from the top-left corner and lies on
/// the screen.
pub open spec fn on_cell_grid(s: Screen, info: FrameInfo) -> bool {
    &&& 0 <= s.row
    &&& s.row % (TOTAL as int) == 0
    &&& s.row + TOTAL <= info.height
    &&& 0 <= s.column
    &&& s.column % (TOTAL as int) == 0
    &&& s.column + TOTAL <= info.width
}

/// On a screen a whole number of cells wide, any character can be written with the
/// cursor on a cell of the grid, and the cursor ends on a cell of the grid again: the
/// text wraps at the right edge and scrolls instead of running off the bottom.
pub proof fn lemma_write_stays_on_grid(s: Screen, info: FrameInfo, color: Rgba, c: char)
    requires
        info_wf(info),
        info.width % TOTAL == 0,
        on_cell_grid(s, info),
    ensures
        can_write(s, info, color, c),
        on_cell_grid(char_written(s, info, color, c), info),
{
    lemma_cell_on_screen(info, s.column, s.row, TOTAL as int, TOTAL as int);
    let t = char_written(s, info, color, c);
    assert(on_cell_grid(t, info));
    lemma_cell_on_screen(info, t.column, t.row, 2, TOTAL as int);
}

/// Colour byte `j` (0, 1 or 2, in the order the pixel format gives) of pixel `(x, y)`.
pub open spec fn pixel_byte(buf: Seq<u8>, info: FrameInfo, x: int, y: int, j: int) -> u8 {
    buf[pixel_base(info, x, y) + j]
}

/// A state of the console on a screen a whole number of cells wide in a drawn pixel
/// format, with the cursor on a cell of the grid.
pub open spec fn grid_console(s: Screen, info: FrameInfo) -> bool {
    &&& info_wf(info)
    &&& drawable(info)
    &&& info.width % TOTAL == 0
    &&& s.buf.len() == info.byte_len
    &&& on_cell_grid(s, info)
}

/// Two pixels in the same columns of a row whose colour bytes share a byte are the same
/// pixel.
pub proof fn lemma_covers_unique(info: FrameInfo, a: int, b: int, x: int, y: int, k: int)
    requires
        info.bytes_per_pixel >= 3,
        0 <= a < info.stride,
        0 <= b,
        0 <= x < info.stride,
        0 <= y,
        covers(info, a, b, k),
        covers(info, x, y, k),
    ensures
        a == x,
        b == y,
{
    let s = info.stride as int;
    let bpp = info.bytes_per_pixel as int;
    let p = b * s + a;
    let q = y * s + x;
    assert(p == q) by (nonlinear_arith)
        requires
            bpp >= 3,
            p * bpp <= k < p * bpp + 3,
            q * bpp <= k < q * bpp + 3,
    {
        if p < q {
            assert((p + 1) * bpp <= q * bpp);
        }
        if q < p {
            assert((q + 1) * bpp <= p * bpp);
        }
    }
    vstd::arithmetic::div_mod::lemma_fundamental_div_mod_converse(p, s, b, a);
    vstd::arithmetic::div_mod::lemma_fundamental_div_mod_converse(q, s, y, x);
}

/// Painting a set of pixels that lie in the columns of a row sets the colour bytes of
/// exactly those pixels to the colour, in the order of the pixel format, and leaves
/// the colour bytes of every other pixel.
pub proof fn lemma_paint_pixel(
    buf: Seq<u8>,
    info: FrameInfo,
    color: Rgba,
    inside: spec_fn(int, int) -> bool,
    x: int,
    y: int,
    j: int,
)
    requires
        drawable(info),
        info.bytes_per_pixel >= 3,
        0 <= x < info.stride,
        0 <= y,
        0 <= j < 3,
        pixel_base(info, x, y) + 3 <= buf.len(),
        forall|a: int, b: int| #[trigger] inside(a, b) ==> 0 <= a < info.stride && 0 <= b,
    ensures
        paint(buf, info, color, inside).len() == buf.len(),
        pixel_byte(paint(buf, info, color, inside), info, x, y, j) == if inside(x, y) {
            channel_value(info, color, j)
        } else {
            pixel_byte(buf, info, x, y, j)
        },
{
    let k = pixel_base(info, x, y) + j;
    assert(covers(info, x, y, k));
    lemma_single_pixel(info, x, y, k);
    assert(0 <= pixel_base(info, x, y)) by (nonlinear_arith)
        requires
            0 <= x,
            0 <= y,
            info.stride >= 0,
            info.bytes_per_pixel >= 0,
    ;
    if inside(x, y) {
        assert(painted(info, inside, k));
    } else if painted(info, inside, k) {
        let (a, b) = choose|a: int, b: int| inside(a, b) && #[trigger] covers(info, a, b, k);
        lemma_covers_unique(info, a, b, x, y, k);
    }
}

/// The colour bytes of a pixel hold red, green and blue in that order in RGB format,
/// and blue, green and red in BGR format.
pub proof fn lemma_channel_order(info: FrameInfo, color: Rgba)
    ensures
        info.pixel_format == PixelKind::Rgb ==> channel_value(info, color, 0) == color.red_spec()
            && channel_value(info, color, 1) == color.green_spec() && channel_value(info, color, 2)
            == color.blue_spec(),
        info.pixel_format == PixelKind::Bgr ==> channel_value(info, color, 0) == color.blue_spec()
            && channel_value(info, color, 1) == color.green_spec() && channel_value(info, color, 2)
            == color.red_spec(),
{
}

/// Every colour byte of a black pixel is 0.
pub proof fn lemma_black_channels(info: FrameInfo, j: int)
    ensures
        channel_value(info, black(), j) == 0,
{
}

/// Scrolling moves every byte up by one text row and leaves the freed last text row
/// blank.
pub proof fn lemma_scroll_moves_up_and_blanks(buf: Seq<u8>, info: FrameInfo)
    requires
        info_wf(info),
        buf.len() == info.byte_len,
    ensures
        scrolled(buf, info).len() == buf.len(),
        forall|k: int|
            0 <= k < buf.len() - text_row_bytes(info) ==> #[trigger] scrolled(buf, info)[k] == buf[k
                + text_row_bytes(info)],
        forall|k: int| buf.len() - text_row_bytes(info) <= k < buf.len() ==> #[trigger] scrolled(buf, info)[k] == 0,
{
    lemma_text_row_fits(info);
}

/// Where the cursor goes on backspace: one cell back on its row; from the start of a
/// row, the last cell of the row above; in the top-left cell, nowhere.
pub open spec fn backspace_target(s: Screen, info: FrameInfo) -> (int, int) {
    if s.column >= TOTAL {
        (s.row, s.column - TOTAL)
    } else if s.row == 0 {
        (s.row, s.column)
    } else {
        (s.row - TOTAL, info.width - TOTAL)
    }
}

/// Backspace erases: the cursor moves to the cell of the character before it, and the
/// cell it left and the cell it moves to are black but for the cursor bar, drawn at the
/// left of the new cell in the console's colour; every other pixel keeps its colour.
pub proof fn lemma_backspace_erases(s: Screen, info: FrameInfo, color: Rgba, x: int, y: int, j: int)
    requires
        grid_console(s, info),
        0 <= x < info.width,
        0 <= y < info.height,
        0 <= j < 3,
    ensures
        ({
            let t = char_deleted(s, info, color);
            let (nr, nc) = backspace_target(s, info);
            let in_old = s.column <= x < s.column + TOTAL && s.row <= y < s.row + TOTAL;
            let in_new = nc <= x < nc + TOTAL && nr <= y < nr + TOTAL;
            let in_bar = nc <= x < nc + 2 && nr <= y < nr + TOTAL;
            &&& t.row == nr
            &&& t.column == nc
            &&& t.buf.len() == s.buf.len()
            &&& pixel_byte(t.buf, info, x, y, j) == if in_bar {
                channel_value(info, color, j)
            } else if in_old || in_new {
                0
            } else {
                pixel_byte(s.buf, info, x, y, j)
            }
        }),
{
    lemma_pixel_in_buffer(info, x, y);
    lemma_black_channels(info, j);
    let (nr, nc) = backspace_target(s, info);
    let old_cell = rect(s.column, s.row, TOTAL as int, TOTAL as int);
    let new_cell = rect(nc, nr, TOTAL as int, TOTAL as int);
    let bar = rect(nc, nr, 2, TOTAL as int);
    let b1 = paint(s.buf, info, black(), old_cell);
    lemma_paint_pixel(s.buf, info, black(), old_cell, x, y, j);
    if s.column < TOTAL && s.row == 0 {
        lemma_paint_pixel(b1, info, color, bar, x, y, j);
    } else {
        let b2 = paint(b1, info, black(), new_cell);
        lemma_paint_pixel(b1, info, black(), new_cell, x, y, j);
        lemma_paint_pixel(b2, info, color, bar, x, y, j);
    }
}

/// Writing a printable character with the cursor on a cell of the grid, where it does
/// not make the screen scroll, draws the character's glyph in the cursor's cell on
/// black: the pixels the glyph lights take the console's colour and every other pixel
/// of the cell is black.  The cursor moves to the next cell, or to the start of the
/// next row from the last cell, and its bar is drawn there; every other pixel keeps
/// its colour.
pub proof fn lemma_write_draws_glyph_on_black(s: Screen, info: FrameInfo, color: Rgba, c: char, x: int, y: int, j: int)
    requires
        grid_console(s, info),
        c != '\n',
        c != '\u{8}',
        s.column + 2 * TOTAL <= info.width || s.row + 2 * TOTAL <= info.height,
        0 <= x < info.width,
        0 <= y < info.height,
        0 <= j < 3,
    ensures
        ({
            let t = char_written(s, info, color, c);
            let (nr, nc) = if s.column + 2 * TOTAL <= info.width {
                (s.row, s.column + TOTAL)
            } else {
                (s.row + TOTAL, 0)
            };
            let in_cell = s.column <= x < s.column + TOTAL && s.row <= y < s.row + TOTAL;
            let lit = match basic_font_glyph(c) {
                Some(g) => g[y - s.row] & (1u8 << ((x - s.column) as usize)) != 0,
                None => false,
            };
            let in_bar = nc <= x < nc + 2 && nr <= y < nr + TOTAL;
            &&& t.row == nr
            &&& t.column == nc
            &&& t.buf.len() == s.buf.len()
            &&& pixel_byte(t.buf, info, x, y, j) == if in_bar || (in_cell && lit) {
                channel_value(info, color, j)
            } else if in_cell {
                0
            } else {
                pixel_byte(s.buf, info, x, y, j)
            }
        }),
{
    lemma_pixel_in_buffer(info, x, y);
    lemma_black_channels(info, j);
    let (nr, nc) = if s.column + 2 * TOTAL <= info.width {
        (s.row, s.column + TOTAL)
    } else {
        (s.row + TOTAL, 0)
    };
    let cell = rect(s.column, s.row, TOTAL as int, TOTAL as int);
    let bar = rect(nc, nr, 2, TOTAL as int);
    let b1 = paint(s.buf, info, black(), cell);
    lemma_paint_pixel(s.buf, info, black(), cell, x, y, j);
    match basic_font_glyph(c) {
        Some(g) => {
            let gp = glyph_pixels(s.column, s.row, g);
            let b2 = paint(b1, info, color, gp);
            lemma_paint_pixel(b1, info, color, gp, x, y, j);
            lemma_paint_pixel(b2, info, color, bar, x, y, j);
        },
        None => {
            lemma_paint_pixel(b1, info, color, bar, x, y, j);
        },
    }
}

/// A newline where the screen does not scroll clears the cursor's cell and draws the
/// cursor at the start of the next row; every other pixel keeps its colour.
pub proof fn lemma_newline_clears_cursor(s: Screen, info: FrameInfo, color: Rgba, x: int, y: int, j: int)
    requires
        grid_console(s, info),
        s.row + 2 * TOTAL <= info.height,
        0 <= x < info.width,
        0 <= y < info.height,
        0 <= j < 3,
    ensures
        ({
            let t = char_written(s, info, color, '\n');
            let in_cell = s.column <= x < s.column + TOTAL && s.row <= y < s.row + TOTAL;
            let in_bar = 0 <= x < 2 && s.row + TOTAL <= y < s.row + 2 * TOTAL;
            &&& t.row == s.row + TOTAL
            &&& t.column == 0
            &&& pixel_byte(t.buf, info, x, y, j) == if in_bar {
                channel_value(info, color, j)
            } else if in_cell {
                0
            } else {
                pixel_byte(s.buf, info, x, y, j)
            }
        }),
{
    lemma_pixel_in_buffer(info, x, y);
    lemma_black_channels(info, j);
    let cell = rect(s.column, s.row, TOTAL as int, TOTAL as int);
    let bar = rect(0, s.row + TOTAL, 2, TOTAL as int);
    let b1 = paint(s.buf, info, black(), cell);
    lemma_paint_pixel(s.buf, info, black(), cell, x, y, j);
    lemma_paint_pixel(b1, info, color, bar, x, y, j);
}

/// After scrolling, each pixel above the last text row shows what the pixel one text
/// row below it showed.
pub proof fn lemma_scrolled_pixel(buf: Seq<u8>, info: FrameInfo, x: int, y: int, j: int)
    requires
        info_wf(info),
        drawable(info),
        buf.len() == info.byte_len,
        0 <= x < info.width,
        0 <= y,
        y + TOTAL < info.height,
        0 <= j < 3,
    ensures
        pixel_byte(scrolled(buf, info), info, x, y, j) == pixel_byte(buf, info, x, y + TOTAL, j),
{
    lemma_pixel_in_buffer(info, x, y + TOTAL);
    lemma_text_row_fits(info);
    let s = info.stride as int;
    let b = info.bytes_per_pixel as int;
    assert(pixel_base(info, x, y + TOTAL) == pixel_base(info, x, y) + text_row_bytes(info)) by (nonlinear_arith)
        requires
            pixel_base(info, x, y + TOTAL) == ((y + 8) * s + x) * b,
            pixel_base(info, x, y) == (y * s + x) * b,
            text_row_bytes(info) == s * b * 8,
    ;
    assert(0 <= pixel_base(info, x, y)) by (nonlinear_arith)
        requires
            0 <= x,
            0 <= y,
            s >= 0,
            b >= 0,
            pixel_base(info, x, y) == (y * s + x) * b,
    ;
    lemma_scroll_moves_up_and_blanks(buf, info);
    let k = pixel_base(info, x, y) + j;
    assert(scrolled(buf, info)[k] == buf[k + text_row_bytes(info)]);
}

/// A newline on the bottom text row clears the cursor's cell and scrolls the screen up
/// one text row; the cursor is drawn at the start of the bottom row.
pub proof fn lemma_newline_scrolls(s: Screen, info: FrameInfo, color: Rgba, x: int, y: int, j: int)
    requires
        grid_console(s, info),
        s.row + 2 * TOTAL > info.height,
        0 <= x < info.width,
        0 <= y,
        y + TOTAL < info.height,
        0 <= j < 3,
    ensures
        ({
            let t = char_written(s, info, color, '\n');
            let in_cell = s.column <= x < s.column + TOTAL && s.row <= y + TOTAL < s.row + TOTAL;
            let in_bar = 0 <= x < 2 && s.row <= y < s.row + TOTAL;
            &&& t.row == s.row
            &&& t.column == 0
            &&& pixel_byte(t.buf, info, x, y, j) == if in_bar {
                channel_value(info, color, j)
            } else if in_cell {
                0
            } else {
                pixel_byte(s.buf, info, x, y + TOTAL, j)
            }
        }),
{
    lemma_pixel_in_buffer(info, x, y);
    lemma_pixel_in_buffer(info, x, y + TOTAL);
    lemma_black_channels(info, j);
    let cell = rect(s.column, s.row, TOTAL as int, TOTAL as int);
    let bar = rect(0, s.row, 2, TOTAL as int);
    let b1 = paint(s.buf, info, black(), cell);
    lemma_paint_pixel(s.buf, info, black(), cell, x, y + TOTAL, j);
    lemma_scrolled_pixel(b1, info, x, y, j);
    let b2 = scrolled(b1, info);
    lemma_scroll_moves_up_and_blanks(b1, info);
    lemma_paint_pixel(b2, info, color, bar, x, y, j);
}

/// A printable character written in the last cell of the bottom text row is drawn on
/// black in that cell, after which the screen scrolls up one text row and the cursor
/// is drawn at the start of the bottom row.
pub proof fn lemma_write_last_cell_scrolls(
    s: Screen,
    info: FrameInfo,
    color: Rgba,
    c: char,
    x: int,
    y: int,
    j: int,
)
    requires
        grid_console(s, info),
        c != '\n',
        c != '\u{8}',
        s.column + 2 * TOTAL > info.width,
        s.row + 2 * TOTAL > info.height,
        0 <= x < info.width,
        0 <= y,
        y + TOTAL < info.height,
        0 <= j < 3,
    ensures
        ({
            let t = char_written(s, info, color, c);
            let in_cell = s.column <= x < s.column + TOTAL && s.row <= y + TOTAL < s.row + TOTAL;
            let lit = match basic_font_glyph(c) {
                Some(g) => g[y + TOTAL - s.row] & (1u8 << ((x - s.column) as usize)) != 0,
                None => false,
            };
            let in_bar = 0 <= x < 2 && s.row <= y < s.row + TOTAL;
            &&& t.row == s.row
            &&& t.column == 0
            &&& pixel_byte(t.buf, info, x, y, j) == if in_bar || (in_cell && lit) {
                channel_value(info, color, j)
            } else if in_cell {
                0
            } else {
                pixel_byte(s.buf, info, x, y + TOTAL, j)
            }
        }),
{
    lemma_pixel_in_buffer(info, x, y);
    lemma_pixel_in_buffer(info, x, y + TOTAL);
    lemma_black_channels(info, j);
    let cell = rect(s.column, s.row, TOTAL as int, TOTAL as int);
    let bar = rect(0, s.row, 2, TOTAL as int);
    let b1 = paint(s.buf, info, black(), cell);
    lemma_paint_pixel(s.buf, info, black(), cell, x, y + TOTAL, j);
    match basic_font_glyph(c) {
        Some(g) => {
            let gp = glyph_pixels(s.column, s.row, g);
            let b2 = paint(b1, info, color, gp);
            lemma_paint_pixel(b1, info, color, gp, x, y + TOTAL, j);
            lemma_scrolled_pixel(b2, info, x, y, j);
            let b3 = scrolled(b2, info);
            lemma_scroll_moves_up_and_blanks(b2, info);
            lemma_paint_pixel(b3, info, color, bar, x, y, j);
        },
        None => {
            lemma_scrolled_pixel(b1, info, x, y, j);
            let b3 = scrolled(b1, info);
            lemma_scroll_moves_up_and_blanks(b1, info);
            lemma_paint_pixel(b3, info, color, bar, x, y, j);
        },
    }
}

/// Rows padded past the visible width do not stop the console: a geometry it accepts
/// stays accepted with any wider stride whose rows still fit in the buffer.
pub proof fn lemma_wider_stride_accepted(info: FrameInfo, stride: usize)
    requires
        info_wf(info),
        stride >= info.width,
        info.height * stride * info.bytes_per_pixel <= info.byte_len,
    ensures
        info_wf(FrameInfo { stride, ..info }),
{
}

/// A text console on a framebuffer.
pub struct Writer {
    row_pos: usize,
    column_pos: usize,
    rbga: Rgba,
    info: FrameInfo,
    frame_buffer: Vec<u8>,
    cursor_visible: bool,
}

impl Writer {
    /// The framebuffer's bytes and the cursor's cell (top-left pixel).
    pub closed spec fn screen(&self) -> Screen {
        Screen { buf: self.frame_buffer@, row: self.row_pos as int, column: self.column_pos as int }
    }

    pub closed spec fn info_spec(&self) -> FrameInfo {
        self.info
    }

    /// The colour text is drawn in.
    pub closed spec fn color(&self) -> Rgba {
        self.rbga
    }

    pub closed spec fn cursor_shown(&self) -> bool {
        self.cursor_visible
    }

    /// The geometry is one the console can draw on and the buffer is as long as the
    /// geometry says.
    pub closed spec fn buffer_wf(&self) -> bool {
        &&& info_wf(self.info)
        &&& self.frame_buffer@.len() == self.info.byte_len
    }

    /// The buffer is well formed and the cursor's text row lies on the screen.
    pub closed spec fn row_wf(&self) -> bool {
        &&& self.buffer_wf()
        &&& self.row_pos % TOTAL == 0
        &&& self.row_pos + TOTAL <= self.info.height
    }

    /// The buffer is well formed, the cursor's text row lies on the screen, and its
    /// column starts on the screen, a whole number of cells from the left or from the
    /// right edge.
    pub closed spec fn wf(&self) -> bool {
        &&& self.row_wf()
        &&& self.column_pos < self.info.width
        &&& (self.column_pos % TOTAL == 0 || (self.info.width - self.column_pos) % (TOTAL as int) == 0)
    }

    /// A console on `buffer`, laid out as `info` says, writing in colour `color`,
    /// with its cursor in the top-left cell.
    pub fn new(buffer: Vec<u8>, info: FrameInfo, color: u32) -> (r: Self)
        requires
            info_wf(info),
            buffer@.len() == info.byte_len,
        ensures
            r.wf(),
            r.screen() == (Screen { buf: buffer@, row: 0, column: 0 }),
            r.info_spec() == info,
            r.color() == Rgba::new_spec(color),
            !r.cursor_shown(),
    {
        Writer {
            info,
            rbga: Rgba::new(color),
            row_pos: 0,
            column_pos: 0,
            frame_buffer: buffer,
            cursor_visible: false,
        }
    }

    /// Paints pixel `(pos_x, pos_y)` in the current colour.
    fn draw_pixel(&mut self, pos_x: usize, pos_y: usize)
        requires
            old(self).buffer_wf(),
            pixel_fits(old(self).info, pos_x as int, pos_y as int),
        ensures
            final(self).buffer_wf(),
            final(self).frame_buffer@ == paint(
                old(self).frame_buffer@,
                old(self).info,
                old(self).rbga,
                |x: int, y: int| x == pos_x && y == pos_y,
            ),
            final(self).row_pos == old(self).row_pos,
            final(self).column_pos == old(self).column_pos,
            final(self).rbga == old(self).rbga,
            final(self).info == old(self).info,
            final(self).cursor_visible == old(self).cursor_visible,
    {
        let ghost old_buf = self.frame_buffer@;
        let ghost inside = |x: int, y: int| x == pos_x && y == pos_y;
        proof {
            let stride = self.info.stride as int;
            let bpp = self.info.bytes_per_pixel as int;
            assert(0 <= pos_y * stride <= pos_y * stride + pos_x <= (pos_y * stride + pos_x) * bpp) by (nonlinear_arith)
                requires
                    pos_y >= 0,
                    pos_x >= 0,
                    stride >= 0,
                    bpp >= 1,
            ;
        }
        let byte_index = (pos_y * self.info.stride + pos_x) * self.info.bytes_per_pixel;
        match self.info.pixel_format {
            PixelKind::Rgb => {
                self.frame_buffer.set(byte_index, self.rbga.red);
                self.frame_buffer.set(byte_index + 1, self.rbga.green);
                self.frame_buffer.set(byte_index + 2, self.rbga.blue);
            },
            PixelKind::Bgr => {
                self.frame_buffer.set(byte_index, self.rbga.blue);
                self.frame_buffer.set(byte_index + 1, self.rbga.green);
                self.frame_buffer.set(byte_index + 2, self.rbga.red);
            },
            PixelKind::Other => {},
        }
        proof {
            if drawable(self.info) {
                assert forall|k: int| 0 <= k < old_buf.len() implies self.frame_buffer@[k] == paint(
                    old_buf,
                    self.info,
                    self.rbga,
                    inside,
                )[k] by {
                    lemma_single_pixel(self.info, pos_x as int, pos_y as int, k);
                }
                assert(self.frame_buffer@ =~= paint(old_buf, self.info, self.rbga, inside));
            }
        }
    }

    /// Paints the pixels `[x0, x0 + w) x [y0, y0 + h)` in the current colour, column
    /// by column.
    fn paint_rect(&mut self, x0: usize, y0: usize, w: usize, h: usize)
        requires
            old(self).buffer_wf(),
            rect_fits(old(self).info, x0 as int, y0 as int, w as int, h as int),
            x0 + w <= usize::MAX,
            y0 + h <= usize::MAX,
        ensures
            final(self).buffer_wf(),
            final(self).frame_buffer@ == paint(
                old(self).frame_buffer@,
                old(self).info,
                old(self).rbga,
                rect(x0 as int, y0 as int, w as int, h as int),
            ),
            final(self).row_pos == old(self).row_pos,
            final(self).column_pos == old(self).column_pos,
            final(self).rbga == old(self).rbga,
            final(self).info == old(self).info,
            final(self).cursor_visible == old(self).cursor_visible,
    {
        let ghost orig = self.frame_buffer@;
        let ghost info = self.info;
        let ghost color = self.rbga;
        let ghost row = self.row_pos;
        let ghost column = self.column_pos;
        let ghost visible = self.cursor_visible;
        proof {
            assert(paint(orig, info, color, rect(x0 as int, y0 as int, 0, h as int)) =~= orig);
        }
        for x in x0..x0 + w
            invariant
                self.buffer_wf(),
                self.info == info,
                self.rbga == color,
                self.row_pos == row,
                self.column_pos == column,
                self.cursor_visible == visible,
                rect_fits(info, x0 as int, y0 as int, w as int, h as int),
                x0 + w <= usize::MAX,
                y0 + h <= usize::MAX,
                self.frame_buffer@ == paint(orig, info, color, rect(x0 as int, y0 as int, x - x0, h as int)),
        {
            let ghost before = self.frame_buffer@;
            for y in y0..y0 + h
                invariant
                    self.buffer_wf(),
                    self.info == info,
                    self.rbga == color,
                    self.row_pos == row,
                    self.column_pos == column,
                    self.cursor_visible == visible,
                    x0 <= x < x0 + w,
                    rect_fits(info, x0 as int, y0 as int, w as int, h as int),
                    y0 + h <= usize::MAX,
                    before == paint(orig, info, color, rect(x0 as int, y0 as int, x - x0, h as int)),
                    self.frame_buffer@ == paint(before, info, color, rect(x as int, y0 as int, 1, y - y0)),
            {
                proof {
                    lemma_rect_fits(info, x0 as int, y0 as int, w as int, h as int, x as int, y as int);
                }
                self.draw_pixel(x, y);
                proof {
                    lemma_paint_union(
                        before,
                        info,
                        color,
                        rect(x as int, y0 as int, 1, y - y0),
                        |a: int, b: int| a == x && b == y,
                    );
                    assert((|a: int, b: int| rect(x as int, y0 as int, 1, y - y0)(a, b) || (a == x && b
                        == y)) =~= rect(x as int, y0 as int, 1, y + 1 - y0));
                }
            }
            proof {
                lemma_paint_union(
                    orig,
                    info,
                    color,
                    rect(x0 as int, y0 as int, x - x0, h as int),
                    rect(x as int, y0 as int, 1, h as int),
                );
                assert((|a: int, b: int| rect(x0 as int, y0 as int, x - x0, h as int)(a, b) || rect(
                    x as int,
                    y0 as int,
                    1,
                    h as int,
                )(a, b)) =~= rect(x0 as int, y0 as int, x + 1 - x0, h as int));
            }
        }
    }

    /// Paints the cursor's cell black.
    fn clear_cursor(&mut self)
        requires
            old(self).row_wf(),
            old(self).column_pos < old(self).info.width,
            cell_fits(old(self).screen(), old(self).info),
        ensures
            final(self).buffer_wf(),
            final(self).screen() == cell_cleared(old(self).screen(), old(self).info),
            final(self).rbga == old(self).rbga,
            final(self).info == old(self).info,
            final(self).cursor_visible == old(self).cursor_visible,
    {
        proof {
            lemma_text_row_fits(self.info);
        }
        let color = self.rbga;
        self.rbga = Rgba::new(0x0);
        proof {
            assert(((0u32 >> 24) & 0xFF) == 0 && ((0u32 >> 16) & 0xFF) == 0 && ((0u32 >> 8) & 0xFF) == 0
                && (0u32 & 0xFF) == 0) by (bit_vector);
            assert(self.rbga == black());
        }
        self.paint_rect(self.column_pos, self.row_pos, TOTAL, TOTAL);
        self.rbga = color;
    }

    /// Draws the cursor, two pixels wide, at the left of its cell.
    fn draw_cursor(&mut self)
        requires
            old(self).row_wf(),
            old(self).column_pos < old(self).info.width,
            bar_fits(old(self).screen(), old(self).info),
        ensures
            final(self).buffer_wf(),
            final(self).screen() == cursor_drawn(old(self).screen(), old(self).info, old(self).rbga),
            final(self).rbga == old(self).rbga,
            final(self).info == old(self).info,
            final(self).cursor_visible == old(self).cursor_visible,
    {
        proof {
            lemma_text_row_fits(self.info);
        }
        self.paint_rect(self.column_pos, self.row_pos, 2, TOTAL);
    }

    /// Clears the last text row of the buffer.
    fn clear_line(&mut self)
        requires
            old(self).buffer_wf(),
        ensures
            final(self).buffer_wf(),
            final(self).frame_buffer@ == old(self).frame_buffer@.take(
                old(self).frame_buffer@.len() - text_row_bytes(old(self).info),
            ) + Seq::new(text_row_bytes(old(self).info) as nat, |i: int| 0u8),
            final(self).row_pos == old(self).row_pos,
            final(self).column_pos == old(self).column_pos,
            final(self).rbga == old(self).rbga,
            final(self).info == old(self).info,
            final(self).cursor_visible == old(self).cursor_visible,
    {
        proof {
            lemma_text_row_fits(self.info);
        }
        let bytes_per_pixel_row = self.info.stride * self.info.bytes_per_pixel;
        let bytes_per_text_row = bytes_per_pixel_row * TOTAL;
        let len = self.frame_buffer.len();
        let start_of_last_line = len - bytes_per_text_row;
        let ghost orig = self.frame_buffer@;
        let ghost w0 = Screen { buf: orig, row: self.row_pos as int, column: self.column_pos as int };
        let ghost info = self.info;
        let ghost color = self.rbga;
        let ghost visible = self.cursor_visible;
        for i in start_of_last_line..len
            invariant
                self.info == info,
                self.rbga == color,
                self.cursor_visible == visible,
                self.row_pos == w0.row,
                self.column_pos == w0.column,
                self.frame_buffer@.len() == len,
                len == orig.len(),
                forall|k: int| 0 <= k < start_of_last_line ==> self.frame_buffer@[k] == orig[k],
                forall|k: int| start_of_last_line <= k < i ==> self.frame_buffer@[k] == 0,
        {
            self.frame_buffer.set(i, 0);
        }
        assert(self.frame_buffer@ =~= orig.take(len - bytes_per_text_row) + Seq::new(
            bytes_per_text_row as nat,
            |i: int| 0u8,
        ));
    }

    /// Moves everything up by one text row and clears the last one.
    fn move_up(&mut self)
        requires
            old(self).buffer_wf(),
        ensures
            final(self).buffer_wf(),
            final(self).frame_buffer@ == scrolled(old(self).frame_buffer@, old(self).info),
            final(self).row_pos == old(self).row_pos,
            final(self).column_pos == old(self).column_pos,
            final(self).rbga == old(self).rbga,
            final(self).info == old(self).info,
            final(self).cursor_visible == old(self).cursor_visible,
    {
        proof {
            lemma_text_row_fits(self.info);
        }
        let bytes_per_pixel_row = self.info.stride * self.info.bytes_per_pixel;
        let bytes_per_text_row = bytes_per_pixel_row * TOTAL;
        let len = self.frame_buffer.len();
        let ghost orig = self.frame_buffer@;
        let ghost w0 = Screen { buf: orig, row: self.row_pos as int, column: self.column_pos as int };
        let ghost info = self.info;
        let ghost color = self.rbga;
        let ghost visible = self.cursor_visible;
        for i in 0..len - bytes_per_text_row
            invariant
                self.info == info,
                self.rbga == color,
                self.cursor_visible == visible,
                self.row_pos == w0.row,
                self.column_pos == w0.column,
                info_wf(info),
                len == info.byte_len,
                self.frame_buffer@.len() == len,
                len == orig.len(),
                bytes_per_text_row <= len,
                forall|k: int| 0 <= k < i ==> self.frame_buffer@[k] == orig[k + bytes_per_text_row],
                forall|k: int| i <= k < len ==> self.frame_buffer@[k] == orig[k],
        {
            let b = self.frame_buffer[i + bytes_per_text_row];
            self.frame_buffer.set(i, b);
        }
        self.clear_line();
        assert(self.frame_buffer@ =~= scrolled(orig, self.info));
    }

    /// Moves the cursor to the start of the next text row, scrolling when it would
    /// leave the screen.
    fn new_line(&mut self)
        requires
            old(self).row_wf(),
        ensures
            final(self).wf(),
            final(self).screen() == line_fed(old(self).screen(), old(self).info),
            final(self).rbga == old(self).rbga,
            final(self).info == old(self).info,
            final(self).cursor_visible == old(self).cursor_visible,
    {
        proof {
            lemma_text_row_fits(self.info);
        }
        self.column_pos = 0;
        self.row_pos = self.row_pos + TOTAL;
        if self.row_pos + TOTAL > self.info.height {
            self.move_up();
            self.row_pos = self.row_pos - TOTAL;
        }
    }

    /// Shows the cursor if it was hidden and hides it if it was shown.
    pub fn toggle_cursor(&mut self)
        requires
            old(self).wf(),
            if old(self).cursor_shown() {
                cell_fits(old(self).screen(), old(self).info_spec())
            } else {
                bar_fits(old(self).screen(), old(self).info_spec())
            },
        ensures
            final(self).wf(),
            final(self).cursor_shown() == !old(self).cursor_shown(),
            final(self).screen() == if final(self).cursor_shown() {
                cursor_drawn(old(self).screen(), old(self).info_spec(), old(self).color())
            } else {
                cell_cleared(old(self).screen(), old(self).info_spec())
            },
            final(self).info_spec() == old(self).info_spec(),
            final(self).color() == old(self).color(),
    {
        self.cursor_visible = !self.cursor_visible;
        if self.cursor_visible {
            self.draw_cursor();
        } else {
            self.clear_cursor();
        }
    }

    /// Clears the whole buffer.
    pub fn clear_screen(&mut self)
        requires
            old(self).wf(),
        ensures
            final(self).wf(),
            final(self).screen() == (Screen {
                buf: Seq::new(old(self).screen().buf.len(), |i: int| 0u8),
                ..old(self).screen()
            }),
            final(self).info_spec() == old(self).info_spec(),
            final(self).color() == old(self).color(),
            final(self).cursor_shown() == old(self).cursor_shown(),
    {
        let len = self.frame_buffer.len();
        let ghost w0 = self.screen();
        let ghost info = self.info;
        let ghost color = self.rbga;
        let ghost visible = self.cursor_visible;
        for i in 0..len
            invariant
                self.info == info,
                self.rbga == color,
                self.cursor_visible == visible,
                self.row_pos == w0.row,
                self.column_pos == w0.column,
                info_wf(info),
                len == info.byte_len,
                self.row_pos % TOTAL == 0,
                self.row_pos + TOTAL <= info.height,
                self.column_pos < info.width,
                self.frame_buffer@.len() == len,
                forall|k: int| 0 <= k < i ==> self.frame_buffer@[k] == 0,
        {
            self.frame_buffer.set(i, 0);
        }
        assert(self.frame_buffer@ =~= Seq::new(len as nat, |i: int| 0u8));
    }

    /// Draws `glyph`, if there is one, in the cursor's cell: each lit font pixel
    /// becomes a `SCALE` x `SCALE` square in the current colour.
    pub fn draw_glyph(&mut self, glyph: Option<[u8; 8]>)
        requires
            old(self).wf(),
            old(self).screen().column + TOTAL <= old(self).info_spec().width,
        ensures
            final(self).wf(),
            final(self).screen() == glyph_drawn(
                old(self).screen(),
                old(self).info_spec(),
                old(self).color(),
                glyph.deep_view(),
            ),
            final(self).info_spec() == old(self).info_spec(),
            final(self).color() == old(self).color(),
            final(self).cursor_shown() == old(self).cursor_shown(),
    {
        if let Some(glyph) = glyph {
            let ghost orig = self.frame_buffer@;
            let ghost info = self.info;
            let ghost color = self.rbga;
            let ghost visible = self.cursor_visible;
            let column = self.column_pos;
            let row = self.row_pos;
            let ghost g = glyph@;
            let ghost lit = glyph_pixels(column as int, row as int, g);
            proof {
                assert(paint(orig, info, color, |a: int, b: int| lit(a, b) && a < column) =~= orig);
            }
            for x_offset in 0..SIZE
                invariant
                    self.wf(),
                    self.info == info,
                    self.rbga == color,
                    self.row_pos == row,
                    self.column_pos == column,
                    self.cursor_visible == visible,
                    g == glyph@,
                    column + TOTAL <= info.width,
                    lit == glyph_pixels(column as int, row as int, g),
                    self.frame_buffer@ == paint(
                        orig,
                        info,
                        color,
                        |a: int, b: int| lit(a, b) && a < column + x_offset,
                    ),
            {
                let ghost before = self.frame_buffer@;
                let ghost done = |a: int, b: int| lit(a, b) && a < column + x_offset;
                proof {
                    assert(paint(before, info, color, |a: int, b: int| lit(a, b) && a == column + x_offset && b < row) =~= before);
                }
                for y_offset in 0..SIZE
                    invariant
                        self.wf(),
                        self.info == info,
                        self.rbga == color,
                        self.row_pos == row,
                        self.column_pos == column,
                        self.cursor_visible == visible,
                        x_offset < SIZE,
                        column + TOTAL <= info.width,
                        g == glyph@,
                        lit == glyph_pixels(column as int, row as int, g),
                        before == paint(orig, info, color, done),
                        done == (|a: int, b: int| lit(a, b) && a < column + x_offset),
                        self.frame_buffer@ == paint(
                            before,
                            info,
                            color,
                            |a: int, b: int| lit(a, b) && a == column + x_offset && b < row + y_offset,
                        ),
                {
                    let ghost now = |a: int, b: int| lit(a, b) && a == column + x_offset && b < row + y_offset;
                    let ghost next = |a: int, b: int| lit(a, b) && a == column + x_offset && b < row + y_offset + 1;
                    if glyph[y_offset] & (1 << x_offset) != 0 {
                        proof {
                            lemma_cell_on_screen(info, (column + x_offset) as int, (row + y_offset) as int, 1, 1);
                        }
                        self.paint_rect(column + x_offset * SCALE, row + y_offset * SCALE, SCALE, SCALE);
                        proof {
                            lemma_paint_union(
                                before,
                                info,
                                color,
                                now,
                                rect((column + x_offset) as int, (row + y_offset) as int, 1, 1),
                            );
                            assert((|a: int, b: int| now(a, b) || rect((column + x_offset) as int, (row + y_offset) as int, 1, 1)(a, b)) =~= next);
                        }
                    } else {
                        proof {
                            assert(now =~= next);
                        }
                    }
                }
                proof {
                    lemma_paint_union(
                        orig,
                        info,
                        color,
                        done,
                        |a: int, b: int| lit(a, b) && a == column + x_offset && b < row + SIZE,
                    );
                    assert((|a: int, b: int| done(a, b) || (lit(a, b) && a == column + x_offset && b < row + SIZE)) =~= (|a: int, b: int| lit(a, b) && a < column + x_offset + 1));
                }
            }
            proof {
                assert((|a: int, b: int| lit(a, b) && a < column + SIZE) =~= lit);
                assert(glyph.deep_view() =~= glyph@);
            }
        }
    }

    /// Backspace; see `char_deleted`.
    pub fn delete_char(&mut self)
        requires
            old(self).wf(),
            cell_fits(old(self).screen(), old(self).info_spec()),
        ensures
            final(self).wf(),
            final(self).screen() == char_deleted(old(self).screen(), old(self).info_spec(), old(self).color()),
            final(self).info_spec() == old(self).info_spec(),
            final(self).color() == old(self).color(),
            final(self).cursor_shown() == old(self).cursor_shown(),
    {
        self.clear_cursor();
        if self.column_pos >= TOTAL {
            self.column_pos = self.column_pos - TOTAL;
        } else {
            if self.row_pos == 0 {
                proof {
                    lemma_cell_on_screen(self.info, self.column_pos as int, 0, 2, TOTAL as int);
                }
                self.draw_cursor();
                return;
            }
            self.row_pos = self.row_pos - TOTAL;
            self.column_pos = self.info.width - TOTAL;
        }
        let current_color = self.rbga;
        self.rbga = Rgba::new(0x00000000);
        proof {
            assert(((0u32 >> 24) & 0xFF) == 0 && ((0u32 >> 16) & 0xFF) == 0 && ((0u32 >> 8) & 0xFF) == 0
                && (0u32 & 0xFF) == 0) by (bit_vector);
            assert(self.rbga == black());
            lemma_cell_on_screen(self.info, self.column_pos as int, self.row_pos as int, TOTAL as int, TOTAL as int);
            lemma_text_row_fits(self.info);
        }
        self.paint_rect(self.column_pos, self.row_pos, TOTAL, TOTAL);
        self.rbga = current_color;
        proof {
            lemma_cell_on_screen(self.info, self.column_pos as int, self.row_pos as int, 2, TOTAL as int);
        }
        self.draw_cursor();
    }

    /// Writes character `c`; see `char_written`.
    pub fn write_char(&mut self, c: char)
        requires
            old(self).wf(),
            can_write(old(self).screen(), old(self).info_spec(), old(self).color(), c),
        ensures
            final(self).wf(),
            final(self).screen() == char_written(old(self).screen(), old(self).info_spec(), old(self).color(), c),
            final(self).info_spec() == old(self).info_spec(),
            final(self).color() == old(self).color(),
            final(self).cursor_shown() == old(self).cursor_shown(),
    {
        if c == '\u{8}' {
            self.delete_char();
            return;
        }
        self.clear_cursor();
        if c == '\n' {
            self.new_line();
            self.draw_cursor();
            return;
        }
        proof {
            lemma_text_row_fits(self.info);
        }
        if self.column_pos + TOTAL > self.info.width {
            self.new_line();
        }
        let glyph = basic_glyph(c);
        self.draw_glyph(glyph);
        self.column_pos = self.column_pos + TOTAL;
        if self.column_pos >= self.info.width || c == '\n' {
            self.new_line();
        }
        self.draw_cursor();
    }

    /// Writes the characters of `s` one by one.
    pub fn write_string(&mut self, s: &str)
        requires
            old(self).wf(),
            can_write_string(old(self).screen(), old(self).info_spec(), old(self).color(), s@),
        ensures
            final(self).wf(),
            final(self).screen() == string_written(old(self).screen(), old(self).info_spec(), old(self).color(), s@),
            final(self).info_spec() == old(self).info_spec(),
            final(self).color() == old(self).color(),
            final(self).cursor_shown() == old(self).cursor_shown(),
    {
        let ghost s0 = self.screen();
        let ghost info = self.info;
        let ghost color = self.rbga;
        let ghost visible = self.cursor_visible;
        let ghost cs = s@;
        let mut chars = s.chars();
        let ghost mut i: int = 0;
        proof {
            broadcast use vstd::string::group_string_axioms;
            assert(cs.take(0) =~= Seq::<char>::empty());
        }
        loop
            invariant
                self.wf(),
                self.info == info,
                self.rbga == color,
                self.cursor_visible == visible,
                0 <= i <= cs.len(),
                chars.remaining() == cs.skip(i),
                chars.obeys_prophetic_iter_laws(),
                self.screen() == string_written(s0, info, color, cs.take(i)),
                can_write_string(s0, info, color, cs),
            ensures
                self.wf(),
                self.info == info,
                self.rbga == color,
                self.cursor_visible == visible,
                self.screen() == string_written(s0, info, color, cs),
            decreases cs.len() - i,
        {
            let next = chars.next();
            proof {
                broadcast use vstd::string::group_string_axioms;
            }
            match next {
                Some(c) => {
                    proof {
                        assert(cs.skip(i)[0] == cs[i]);
                        assert(cs.take(i + 1).drop_last() =~= cs.take(i));
                        lemma_can_write_prefix(s0, info, color, cs, i + 1);
                    }
                    self.write_char(c);
                    proof {
                        assert(cs.skip(i).drop_first() =~= cs.skip(i + 1));
                        i = i + 1;
                    }
                },
                None => {
                    proof {
                        assert(cs.take(i) =~= cs);
                    }
                    break;
                },
            }
        }
    }

    /// The framebuffer's bytes.
    pub fn frame_buffer(&self) -> (r: &Vec<u8>)
        ensures
            r@ == self.screen().buf,
    {
        &self.frame_buffer
    }

    /// Top pixel row of the cursor's cell.
    pub fn row(&self) -> (r: usize)
        ensures
            r == self.screen().row,
    {
        self.row_pos
    }

    /// Left pixel column of the cursor's cell.
    pub fn column(&self) -> (r: usize)
        ensures
            r == self.screen().column,
    {
        self.column_pos
    }

    /// The geometry of the framebuffer.
    pub fn info(&self) -> (r: FrameInfo)
        ensures
            r == self.info_spec(),
    {
        self.info
    }

    /// Whether the cursor is shown.
    pub fn cursor_visible(&self) -> (r: bool)
        ensures
            r == self.cursor_shown(),
    {
        self.cursor_visible
    }

    /// Where the cursor's cell is after writing `c` (not backspace): its top row and
    /// left column.
    fn position_after(&self, c: char) -> (r: (usize, usize))
        requires
            self.wf(),
            c != '\u{8}',
        ensures
            r.0 == char_written(self.screen(), self.info, self.rbga, c).row,
            r.1 == char_written(self.screen(), self.info, self.rbga, c).column,
    {
        proof {
            lemma_text_row_fits(self.info);
        }
        let width = self.info.width;
        let height = self.info.height;
        let mut row = self.row_pos;
        let mut column = self.column_pos;
        if c == '\n' {
            column = 0;
            row = if row + 2 * TOTAL > height { row } else { row + TOTAL };
            return (row, column);
        }
        if column + TOTAL > width {
            column = 0;
            row = if row + 2 * TOTAL > height { row } else { row + TOTAL };
        }
        column = column + TOTAL;
        if column >= width {
            column = 0;
            row = if row + 2 * TOTAL > height { row } else { row + TOTAL };
        }
        (row, column)
    }

    /// Whether the cursor can be toggled: the cell it is cleared from, or the place it
    /// is drawn at, lies inside the buffer.
    pub fn can_toggle_cursor(&self) -> (r: bool)
        ensures
            r == if self.cursor_shown() {
                cell_fits(self.screen(), self.info_spec())
            } else {
                bar_fits(self.screen(), self.info_spec())
            },
    {
        if self.cursor_visible {
            rect_fits_exec(&self.info, self.column_pos, self.row_pos, TOTAL, TOTAL)
        } else {
            rect_fits_exec(&self.info, self.column_pos, self.row_pos, 2, TOTAL)
        }
    }

    /// On a screen a whole number of cells wide, every character can be written from
    /// any state the console can be in.
    pub proof fn lemma_can_always_write(&self, c: char)
        requires
            self.wf(),
            self.info_spec().width % TOTAL == 0,
        ensures
            on_cell_grid(self.screen(), self.info_spec()),
            can_write(self.screen(), self.info_spec(), self.color(), c),
            on_cell_grid(char_written(self.screen(), self.info_spec(), self.color(), c), self.info_spec()),
    {
        lemma_write_stays_on_grid(self.screen(), self.info, self.rbga, c);
    }

    /// Whether writing `c` now can be done; see `can_write`.
    pub fn can_write_char(&self, c: char) -> (r: bool)
        requires
            self.wf(),
        ensures
            r == can_write(self.screen(), self.info_spec(), self.color(), c),
    {
        if !rect_fits_exec(&self.info, self.column_pos, self.row_pos, TOTAL, TOTAL) {
            return false;
        }
        if c == '\u{8}' {
            return true;
        }
        let (row, column) = self.position_after(c);
        rect_fits_exec(&self.info, column, row, 2, TOTAL)
    }
}

} // verus!
