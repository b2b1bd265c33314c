//! The screen: a rectangle of 32-bit pixels, drawn into memory.
//!
//! Only 32 bits per pixel are supported; with any other depth nothing is drawn.
use vstd::prelude::*;
use crate::bytes;
use crate::fmt;
use crate::mb2;

verus! {

/// Where the screen is, as the boot loader set it up.
#[derive(Clone, Copy, PartialEq, Eq, Debug, Structural)]
pub struct Mode {
    pub addr: u64,
    /// Bytes per row.
    pub pitch: u32,
    pub width: u32,
    pub height: u32,
}

/// What the boot information says of a screen.
#[derive(Clone, Copy, PartialEq, Eq, Debug, Structural)]
pub enum Detected {
    Screen(Mode),
    /// There is one, but with this many bits per pixel.
    Unsupported(u8),
    Missing,
}

/// Whether there is a screen to draw on.
pub fn available(detected: &Detected) -> (r: bool)
    ensures
        r == (detected is Screen),
{
    match detected {
        Detected::Screen(_) => true,
        _ => false,
    }
}

/// What the framebuffer tag at `at` describes.
pub open spec fn screen_at(b: Seq<u8>, at: int) -> Detected {
    if at + 29 > b.len() {
        Detected::Missing
    } else if b[at + 28] == 32 {
        Detected::Screen(
            Mode {
                addr: bytes::le64(b, at + 8) as u64,
                pitch: bytes::le32(b, at + 16) as u32,
                width: bytes::le32(b, at + 20) as u32,
                height: bytes::le32(b, at + 24) as u32,
            },
        )
    } else {
        Detected::Unsupported(b[at + 28])
    }
}

/// What the first framebuffer tag from `at` on describes.
pub open spec fn screen_from(b: Seq<u8>, at: int) -> Detected
    decreases mb2::left(at, mb2::info_end(b)),
{
    if !mb2::has_tag(b, at) || at < 0 || mb2::next_tag(b, at) <= at {
        Detected::Missing
    } else if bytes::le32(b, at) == mb2::TAG_FRAMEBUFFER {
        screen_at(b, at)
    } else {
        screen_from(b, mb2::next_tag(b, at))
    }
}

/// Looks for the screen in the boot information.
pub fn init(info: &[u8]) -> (r: Detected)
    ensures
        r == screen_from(info@, 8),
{
    let end = mb2::tags_end(info) as u64;
    let mut at: u64 = 8;
    while end >= 8 && at <= end - 8
        invariant
            8 <= at,
            end == mb2::info_end(info@),
            end <= info@.len(),
            end <= u32::MAX,
            screen_from(info@, at as int) == screen_from(info@, 8),
        decreases mb2::left(at as int, end as int),
    {
        let limit = info.len();
        let i = at as usize;
        let tag_type = bytes::u32_at(info, i);
        let size = bytes::u32_at(info, i + 4);
        if tag_type == mb2::TAG_END || size == 0 {
            return Detected::Missing;
        }
        let next = mb2::tag_after(at, size);
        if tag_type == mb2::TAG_FRAMEBUFFER {
            if limit < 29 || i > limit - 29 {
                return Detected::Missing;
            }
            let bpp = info[i + 28];
            if bpp == 32 {
                return Detected::Screen(
                    Mode {
                        addr: bytes::u64_at(info, i + 8),
                        pitch: bytes::u32_at(info, i + 16),
                        width: bytes::u32_at(info, i + 20),
                        height: bytes::u32_at(info, i + 24),
                    },
                );
            }
            return Detected::Unsupported(bpp);
        }
        at = next;
    }
    Detected::Missing
}

pub const NO_TAG: &'static str =
    "[fb] no se encontró tag de framebuffer — sin salida gráfica\n";

pub const PATTERN_DRAWN: &'static str = "[fb] patrón de prueba dibujado (8 barras de color)\n";

pub const NO_PATTERN: &'static str =
    "[fb] sin framebuffer disponible, no se dibuja el patrón de prueba\n";

/// What is logged of the search for a screen.
pub open spec fn detected_text(d: Detected) -> Seq<u8> {
    match d {
        Detected::Screen(mode) => fmt::text("[fb] "@) + fmt::decimal(mode.width as nat) + fmt::text(
            "x"@,
        ) + fmt::decimal(mode.height as nat) + fmt::text(" @ 32bpp, pitch="@) + fmt::decimal(
            mode.pitch as nat,
        ) + fmt::text(", addr=0x"@) + fmt::hex(mode.addr as nat) + fmt::text("\n"@),
        Detected::Unsupported(bpp) => fmt::text("[fb] tag encontrado pero bpp="@) + fmt::decimal(
            bpp as nat,
        ) + fmt::text(" no soportado (solo 32)\n"@),
        Detected::Missing => fmt::text(NO_TAG@),
    }
}

/// What is logged of the search for a screen.
pub fn detected_report(d: &Detected) -> (r: Vec<u8>)
    ensures
        r@ == detected_text(*d),
{
    let mut out: Vec<u8> = Vec::new();
    match d {
        Detected::Screen(mode) => {
            fmt::push_text(&mut out, "[fb] ");
            fmt::push_decimal(&mut out, mode.width as u64);
            fmt::push_text(&mut out, "x");
            fmt::push_decimal(&mut out, mode.height as u64);
            fmt::push_text(&mut out, " @ 32bpp, pitch=");
            fmt::push_decimal(&mut out, mode.pitch as u64);
            fmt::push_text(&mut out, ", addr=0x");
            fmt::push_hex(&mut out, mode.addr);
            fmt::push_text(&mut out, "\n");
        },
        Detected::Unsupported(bpp) => {
            fmt::push_text(&mut out, "[fb] tag encontrado pero bpp=");
            fmt::push_decimal(&mut out, *bpp as u64);
            fmt::push_text(&mut out, " no soportado (solo 32)\n");
        },
        Detected::Missing => {
            fmt::push_text(&mut out, NO_TAG);
        },
    }
    assert(out@ =~= detected_text(*d));
    out
}

/// What is logged of the test pattern, which is drawn if there is a screen.
pub fn pattern_report(d: &Detected) -> (r: &'static str)
    ensures
        r == if d is Screen {
            PATTERN_DRAWN
        } else {
            NO_PATTERN
        },
{
    if available(d) {
        PATTERN_DRAWN
    } else {
        NO_PATTERN
    }
}

/// A screen and its pixels. The view is the pixels, row by row from the top
/// left.
pub struct Framebuffer {
    mode: Mode,
    pixels: Vec<u32>,
}

impl View for Framebuffer {
    type V = Seq<u32>;

    closed spec fn view(&self) -> Seq<u32> {
        self.pixels@
    }
}

/// Whether (`x`, `y`) is on the screen.
pub open spec fn on_screen(mode: Mode, x: int, y: int) -> bool {
    0 <= x < mode.width && 0 <= y < mode.height
}

/// Index of the pixel at (`x`, `y`) on a screen of this width.
pub open spec fn at(width: u32, x: int, y: int) -> int {
    y * width + x
}

proof fn lemma_at(width: u32, height: u32, x: int, y: int)
    requires
        0 <= x < width,
        0 <= y < height,
    ensures
        0 <= at(width, x, y) < width * height,
        forall|x2: int, y2: int|
            0 <= x2 < width && 0 <= y2 && #[trigger] at(width, x2, y2) == at(width, x, y) ==> x2
                == x && y2 == y,
{
    assert(0 <= y * width + x < width * height) by (nonlinear_arith)
        requires
            0 <= x < width,
            0 <= y < height,
    ;
    assert forall|x2: int, y2: int|
        0 <= x2 < width && 0 <= y2 && #[trigger] at(width, x2, y2) == at(width, x, y) implies x2
        == x && y2 == y by {
        assert(y2 == y) by (nonlinear_arith)
            requires
                0 <= x < width,
                0 <= x2 < width,
                y2 * width + x2 == y * width + x,
        ;
    }
}

/// Colours of [`test_pattern`], from the left: white, yellow, cyan, green,
/// magenta, red, blue, black.
pub const COLORS: [u32; 8] = [
    0x00FF_FFFF,
    0x00FF_FF00,
    0x0000_FFFF,
    0x0000_FF00,
    0x00FF_00FF,
    0x00FF_0000,
    0x0000_00FF,
    0x0000_0000,
];

/// Width of a glyph in pixels.
pub const GLYPH_WIDTH: u32 = 8;

impl Framebuffer {
    pub closed spec fn mode_spec(&self) -> Mode {
        self.mode
    }

    pub open spec fn width(&self) -> u32 {
        self.mode_spec().width
    }

    pub open spec fn height(&self) -> u32 {
        self.mode_spec().height
    }

    pub closed spec fn wf(&self) -> bool {
        self.pixels@.len() == self.mode.width * self.mode.height
    }

    /// The pixel at (`x`, `y`).
    pub open spec fn pixel(&self, x: int, y: int) -> u32 {
        self@[at(self.width(), x, y)]
    }

    /// A screen that shows these pixels.
    pub fn showing(mode: Mode, pixels: Vec<u32>) -> (r: Framebuffer)
        requires
            pixels@.len() == mode.width * mode.height,
        ensures
            r.wf(),
            r.mode_spec() == mode,
            r@ == pixels@,
    {
        Framebuffer { mode, pixels }
    }

    /// A black screen.
    pub fn new(mode: Mode) -> (r: Framebuffer)
        requires
            mode.width * mode.height <= usize::MAX,
        ensures
            r.wf(),
            r.mode_spec() == mode,
            forall|x: int, y: int| #[trigger] on_screen(r.mode_spec(), x, y) ==> r.pixel(x, y) == 0,
    {
        let count = (mode.width as u64 * mode.height as u64) as usize;
        let r = Framebuffer::showing(mode, vec![0u32; count]);
        assert forall|x: int, y: int| #[trigger] on_screen(r.mode_spec(), x, y) implies r.pixel(x, y) == 0 by {
            lemma_at(mode.width, mode.height, x, y);
        }
        r
    }

    pub fn mode(&self) -> (r: Mode)
        ensures
            r == self.mode_spec(),
    {
        self.mode
    }

    /// The pixel at (`x`, `y`).
    pub fn get_pixel(&self, x: u32, y: u32) -> (r: u32)
        requires
            self.wf(),
            on_screen(self.mode_spec(), x as int, y as int),
        ensures
            r == self.pixel(x as int, y as int),
    {
        let len = self.pixels.len();
        proof {
            lemma_at(self.mode.width, self.mode.height, x as int, y as int);
        }
        self.pixels[(y as u64 * self.mode.width as u64 + x as u64) as usize]
    }

    /// Address of the pixel at (`x`, `y`) in the memory of the screen.
    pub fn pixel_address(&self, x: u32, y: u32) -> (r: u64)
        requires
            self.mode_spec().addr + y * self.mode_spec().pitch + 4 * x <= u64::MAX,
        ensures
            r == self.mode_spec().addr + y * self.mode_spec().pitch + 4 * x,
    {
        assert(0 <= y * self.mode.pitch <= 0xFFFF_FFFF * 0xFFFF_FFFF) by (nonlinear_arith)
            requires
                0 <= y <= 0xFFFF_FFFF,
                0 <= self.mode.pitch <= 0xFFFF_FFFF,
        ;
        self.mode.addr + y as u64 * self.mode.pitch as u64 + 4 * (x as u64)
    }

    fn put_pixel(&mut self, x: u32, y: u32, color: u32)
        requires
            old(self).wf(),
            on_screen(old(self).mode_spec(), x as int, y as int),
        ensures
            final(self).wf(),
            final(self).mode_spec() == old(self).mode_spec(),
            forall|px: int, py: int| #[trigger]
                on_screen(final(self).mode_spec(), px, py) ==> final(self).pixel(px, py) == if px == x && py == y {
                    color
                } else {
                    old(self).pixel(px, py)
                },
    {
        let len = self.pixels.len();
        proof {
            lemma_at(self.mode.width, self.mode.height, x as int, y as int);
        }
        let i = (y as u64 * self.mode.width as u64 + x as u64) as usize;
        self.pixels.set(i, color);
        assert forall|px: int, py: int| #[trigger] on_screen(self.mode_spec(), px, py) implies self.pixel(px, py)
            == if px == x && py == y {
            color
        } else {
            old(self).pixel(px, py)
        } by {
            lemma_at(self.mode.width, self.mode.height, px, py);
        }
    }
}

/// Whether (`px`, `py`) lies in the rectangle.
pub open spec fn in_rect(x: int, y: int, w: int, h: int, px: int, py: int) -> bool {
    x <= px < x + w && y <= py < y + h
}

/// Fills a rectangle, as far as it is on the screen.
pub fn fill_rect(fb: &mut Framebuffer, x: u32, y: u32, w: u32, h: u32, color: u32)
    requires
        old(fb).wf(),
        x + w <= u32::MAX,
        y + h <= u32::MAX,
    ensures
        final(fb).wf(),
        final(fb).mode_spec() == old(fb).mode_spec(),
        forall|px: int, py: int| #[trigger]
            on_screen(final(fb).mode_spec(), px, py) ==> final(fb).pixel(px, py) == if in_rect(
                x as int,
                y as int,
                w as int,
                h as int,
                px,
                py,
            ) {
                color
            } else {
                old(fb).pixel(px, py)
            },
{
    let mode = fb.mode();
    let x_end = if x + w < mode.width {
        x + w
    } else {
        mode.width
    };
    let y_end = if y + h < mode.height {
        y + h
    } else {
        mode.height
    };
    let mut py = y;
    while py < y_end
        invariant
            y <= py,
            y_end <= mode.height,
            x_end <= mode.width,
            fb.wf(),
            fb.mode_spec() == mode,
            old(fb).mode_spec() == mode,
            forall|qx: int, qy: int| #[trigger]
                on_screen(fb.mode_spec(), qx, qy) ==> fb.pixel(qx, qy) == if x <= qx < x_end && y <= qy < py && qy
                    < y_end {
                    color
                } else {
                    old(fb).pixel(qx, qy)
                },
        decreases mb2::left(py as int, y_end as int),
    {
        let mut px = x;
        while px < x_end
            invariant
                x <= px,
                y <= py < y_end <= mode.height,
                x_end <= mode.width,
                fb.wf(),
                fb.mode_spec() == mode,
                old(fb).mode_spec() == mode,
                forall|qx: int, qy: int| #[trigger]
                    on_screen(fb.mode_spec(), qx, qy) ==> fb.pixel(qx, qy) == if x <= qx < x_end && y <= qy < py
                        || (qy == py && x <= qx < px && qx < x_end) {
                        color
                    } else {
                        old(fb).pixel(qx, qy)
                    },
            decreases mb2::left(px as int, x_end as int),
        {
            fb.put_pixel(px, py, color);
            px += 1;
        }
        py += 1;
    }
}

/// The colour of column `x` in the test pattern: eight bars of equal width. The
/// columns that the division leaves over keep what they had.
pub open spec fn pattern(width: u32, x: int) -> Option<u32> {
    let stripe = width / 8;
    if stripe > 0 && x < 8 * stripe {
        Some(COLORS[x / (stripe as int)])
    } else {
        None
    }
}

/// Draws eight vertical bars.
pub fn test_pattern(fb: &mut Framebuffer)
    requires
        old(fb).wf(),
    ensures
        final(fb).wf(),
        final(fb).mode_spec() == old(fb).mode_spec(),
        forall|px: int, py: int| #[trigger]
            on_screen(final(fb).mode_spec(), px, py) ==> final(fb).pixel(px, py) == match pattern(
                old(fb).width(),
                px,
            ) {
                Some(c) => c,
                None => old(fb).pixel(px, py),
            },
{
    let mode = fb.mode();
    let stripe_w = mode.width / 8;
    let mut i: u32 = 0;
    while i < 8
        invariant
            i <= 8,
            stripe_w == mode.width / 8,
            fb.wf(),
            fb.mode_spec() == mode,
            old(fb).mode_spec() == mode,
            forall|qx: int, qy: int| #[trigger]
                on_screen(fb.mode_spec(), qx, qy) ==> fb.pixel(qx, qy) == if stripe_w > 0 && qx < i * stripe_w {
                    COLORS[qx / (stripe_w as int)]
                } else {
                    old(fb).pixel(qx, qy)
                },
        decreases 8 - i,
    {
        let color = COLORS[i as usize];
        assert(i * stripe_w + stripe_w <= mode.width) by (nonlinear_arith)
            requires
                i <= 7,
                8 * stripe_w <= mode.width,
        ;
        assert(0 <= i * stripe_w) by (nonlinear_arith)
            requires
                i >= 0,
                stripe_w >= 0,
        ;
        fill_rect(fb, i * stripe_w, 0, stripe_w, mode.height, color);
        assert forall|qx: int, qy: int| #[trigger] on_screen(fb.mode_spec(), qx, qy) implies fb.pixel(qx, qy)
            == if stripe_w > 0 && qx < (i + 1) * stripe_w {
            COLORS[qx / (stripe_w as int)]
        } else {
            old(fb).pixel(qx, qy)
        } by {
            assert((i + 1) * stripe_w == i * stripe_w + stripe_w) by (nonlinear_arith);
            if stripe_w > 0 && i * stripe_w <= qx < i * stripe_w + stripe_w {
                assert(qx / (stripe_w as int) == i) by (nonlinear_arith)
                    requires
                        stripe_w > 0,
                        i * stripe_w <= qx < i * stripe_w + stripe_w,
                ;
            }
        }
        i += 1;
    }
}

/// Whether bit `col`, counted from the left, is set in a row of a glyph.
pub open spec fn row_bit(bits: u8, col: int) -> bool {
    bits & (0x80u8 >> (col as u8)) != 0
}

/// Whether the glyph colours (`px`, `py`), when drawn at (`x`, `y`) with every
/// pixel of it as a block of `scale` by `scale`.
pub open spec fn in_glyph(rows: Seq<u8>, x: int, y: int, scale: int, px: int, py: int) -> bool {
    exists|row: int, col: int|
        0 <= row < 8 && 0 <= col < 8 && row_bit(rows[row], col) && #[trigger] in_rect(
            x + col * scale,
            y + row * scale,
            scale,
            scale,
            px,
            py,
        )
}

/// Whether one of the first `n` blocks of the glyph, in reading order, colours
/// (`px`, `py`).
spec fn in_blocks(
    rows: Seq<u8>,
    x: int,
    y: int,
    scale: int,
    n: int,
    px: int,
    py: int,
) -> bool {
    exists|row: int, col: int|
        0 <= row < 8 && 0 <= col < 8 && 8 * row + col < n && row_bit(rows[row], col)
            && #[trigger] in_rect(x + col * scale, y + row * scale, scale, scale, px, py)
}

/// Draws a glyph of 8 by 8 pixels, enlarged `scale` times.
pub fn draw_char(fb: &mut Framebuffer, x: u32, y: u32, glyph: &[u8; 8], color: u32, scale: u32)
    requires
        old(fb).wf(),
        x + 8 * scale <= u32::MAX,
        y + 8 * scale <= u32::MAX,
    ensures
        final(fb).wf(),
        final(fb).mode_spec() == old(fb).mode_spec(),
        forall|px: int, py: int| #[trigger]
            on_screen(final(fb).mode_spec(), px, py) ==> final(fb).pixel(px, py) == if in_glyph(
                glyph@,
                x as int,
                y as int,
                scale as int,
                px,
                py,
            ) {
                color
            } else {
                old(fb).pixel(px, py)
            },
{
    let ghost mode = fb.mode_spec();
    let ghost rows = glyph@;
    let mut n: u32 = 0;
    while n < 64
        invariant
            n <= 64,
            rows == glyph@,
            x + 8 * scale <= u32::MAX,
            y + 8 * scale <= u32::MAX,
            fb.wf(),
            fb.mode_spec() == mode,
            old(fb).mode_spec() == mode,
            forall|px: int, py: int| #[trigger]
                on_screen(fb.mode_spec(), px, py) ==> fb.pixel(px, py) == if in_blocks(
                    rows,
                    x as int,
                    y as int,
                    scale as int,
                    n as int,
                    px,
                    py,
                ) {
                    color
                } else {
                    old(fb).pixel(px, py)
                },
        decreases 64 - n,
    {
        let row = n / 8;
        let col = n % 8;
        let bits = glyph[row as usize];
        let ghost before = *fb;
        if bits & (0x80u8 >> col as u8) != 0 {
            assert(0 <= col * scale && col * scale + scale <= 8 * scale) by (nonlinear_arith)
                requires
                    0 <= col <= 7,
                    scale >= 0,
            ;
            assert(0 <= row * scale && row * scale + scale <= 8 * scale) by (nonlinear_arith)
                requires
                    0 <= row <= 7,
                    scale >= 0,
            ;
            fill_rect(fb, x + col * scale, y + row * scale, scale, scale, color);
        }
        proof {
            assert forall|px: int, py: int| in_blocks(
                rows,
                x as int,
                y as int,
                scale as int,
                n + 1,
                px,
                py,
            ) <==> in_blocks(rows, x as int, y as int, scale as int, n as int, px, py) || (
            row_bit(bits, col as int) && in_rect(
                x + col * scale,
                y + row * scale,
                scale as int,
                scale as int,
                px,
                py,
            )) by {
                lemma_one_more_block(
                    rows,
                    x as int,
                    y as int,
                    scale as int,
                    row as int,
                    col as int,
                    px,
                    py,
                );
            }
        }
        n += 1;
    }
    assert forall|px: int, py: int| in_blocks(
        rows,
        x as int,
        y as int,
        scale as int,
        64,
        px,
        py,
    ) == in_glyph(rows, x as int, y as int, scale as int, px, py) by {
        if in_glyph(rows, x as int, y as int, scale as int, px, py) {
            let (row, col) = choose|row: int, col: int|
                0 <= row < 8 && 0 <= col < 8 && row_bit(rows[row], col) && #[trigger] in_rect(
                    x + col * scale,
                    y + row * scale,
                    scale as int,
                    scale as int,
                    px,
                    py,
                );
            assert(8 * row + col < 64);
        }
    }
}

proof fn lemma_one_more_block(
    rows: Seq<u8>,
    x: int,
    y: int,
    scale: int,
    row: int,
    col: int,
    px: int,
    py: int,
)
    requires
        0 <= row < 8,
        0 <= col < 8,
    ensures
        in_blocks(rows, x, y, scale, 8 * row + col + 1, px, py) <==> in_blocks(
            rows,
            x,
            y,
            scale,
            8 * row + col,
            px,
            py,
        ) || (row_bit(rows[row], col) && in_rect(
            x + col * scale,
            y + row * scale,
            scale,
            scale,
            px,
            py,
        )),
{
    let n = 8 * row + col;
    if in_blocks(rows, x, y, scale, n + 1, px, py) {
        let (r, c) = choose|r: int, c: int|
            0 <= r < 8 && 0 <= c < 8 && 8 * r + c < n + 1 && row_bit(rows[r], c)
                && #[trigger] in_rect(x + c * scale, y + r * scale, scale, scale, px, py);
        if 8 * r + c == n {
            assert(r == row && c == col);
        } else {
            assert(in_blocks(rows, x, y, scale, n, px, py));
        }
    }
    if in_blocks(rows, x, y, scale, n, px, py) {
        let (r, c) = choose|r: int, c: int|
            0 <= r < 8 && 0 <= c < 8 && 8 * r + c < n && row_bit(rows[r], c)
                && #[trigger] in_rect(x + c * scale, y + r * scale, scale, scale, px, py);
        assert(in_blocks(rows, x, y, scale, n + 1, px, py));
    }
}

/// How far one character moves the next one to the right: a glyph and a gap.
pub open spec fn advance(scale: int) -> int {
    GLYPH_WIDTH * scale + scale
}

/// Whether (`px`, `py`) is part of one of these glyphs, of which the first starts
/// at (`x`, `y`).
pub open spec fn in_text(
    glyphs: Seq<[u8; 8]>,
    x: int,
    y: int,
    scale: int,
    px: int,
    py: int,
) -> bool {
    exists|i: int|
        0 <= i < glyphs.len() && #[trigger] in_glyph(
            glyphs[i]@,
            x + i * advance(scale),
            y,
            scale,
            px,
            py,
        )
}

/// Draws a line of text, given as the glyphs of its characters.
pub fn draw_str(
    fb: &mut Framebuffer,
    x: u32,
    y: u32,
    glyphs: &Vec<[u8; 8]>,
    color: u32,
    scale: u32,
)
    requires
        old(fb).wf(),
        x + glyphs@.len() * advance(scale as int) <= u32::MAX,
        y + 8 * scale <= u32::MAX,
    ensures
        final(fb).wf(),
        final(fb).mode_spec() == old(fb).mode_spec(),
        forall|px: int, py: int| #[trigger]
            on_screen(final(fb).mode_spec(), px, py) ==> final(fb).pixel(px, py) == if in_text(
                glyphs@,
                x as int,
                y as int,
                scale as int,
                px,
                py,
            ) {
                color
            } else {
                old(fb).pixel(px, py)
            },
{
    let ghost mode = fb.mode_spec();
    let ghost step = advance(scale as int);
    let mut cursor_x = x;
    let mut i: usize = 0;
    assert(cursor_x == x + 0 * step);
    while i < glyphs.len()
        invariant
            i <= glyphs@.len(),
            step == advance(scale as int),
            x + glyphs@.len() * step <= u32::MAX,
            y + 8 * scale <= u32::MAX,
            cursor_x == x + i * step,
            fb.wf(),
            fb.mode_spec() == mode,
            old(fb).mode_spec() == mode,
            forall|px: int, py: int| #[trigger]
                on_screen(fb.mode_spec(), px, py) ==> fb.pixel(px, py) == if in_text(
                    glyphs@.take(i as int),
                    x as int,
                    y as int,
                    scale as int,
                    px,
                    py,
                ) {
                    color
                } else {
                    old(fb).pixel(px, py)
                },
        decreases glyphs@.len() - i,
    {
        assert(i * step + step <= glyphs@.len() * step) by (nonlinear_arith)
            requires
                i + 1 <= glyphs@.len(),
                step >= 0,
        ;
        assert((i + 1) * step == i * step + step) by (nonlinear_arith);
        draw_char(fb, cursor_x, y, &glyphs[i], color, scale);
        proof {
            let before = glyphs@.take(i as int);
            let after = glyphs@.take(i + 1);
            assert forall|px: int, py: int| #[trigger] in_text(
                after,
                x as int,
                y as int,
                scale as int,
                px,
                py,
            ) <==> in_text(before, x as int, y as int, scale as int, px, py) || in_glyph(
                glyphs@[i as int]@,
                x + i * step,
                y as int,
                scale as int,
                px,
                py,
            ) by {
                if in_text(before, x as int, y as int, scale as int, px, py) {
                    let k = choose|k: int|
                        0 <= k < before.len() && #[trigger] in_glyph(
                            before[k]@,
                            x + k * advance(scale as int),
                            y as int,
                            scale as int,
                            px,
                            py,
                        );
                    assert(in_glyph(
                        after[k]@,
                        x + k * advance(scale as int),
                        y as int,
                        scale as int,
                        px,
                        py,
                    ));
                }
                if in_glyph(glyphs@[i as int]@, x + i * step, y as int, scale as int, px, py) {
                    assert(in_glyph(
                        after[i as int]@,
                        x + i * advance(scale as int),
                        y as int,
                        scale as int,
                        px,
                        py,
                    ));
                }
                if in_text(after, x as int, y as int, scale as int, px, py) {
                    let k = choose|k: int|
                        0 <= k < after.len() && #[trigger] in_glyph(
                            after[k]@,
                            x + k * advance(scale as int),
                            y as int,
                            scale as int,
                            px,
                            py,
                        );
                    if k < i {
                        assert(in_glyph(
                            before[k]@,
                            x + k * advance(scale as int),
                            y as int,
                            scale as int,
                            px,
                            py,
                        ));
                    }
                }
            }
        }
        cursor_x = cursor_x + GLYPH_WIDTH * scale + scale;
        i += 1;
    }
    assert(glyphs@.take(i as int) =~= glyphs@);
}

/// Where the first tag about a screen is tag `i` of a well laid out record, the
/// screen is the one that the tag describes: its address, its bytes per row and
/// its size are read from there, if its pixels have 32 bits. Without such a tag
/// there is no screen.
pub proof fn law_screen_is_described_by_its_tag(
    b: Seq<u8>,
    tags: Seq<int>,
    before: Seq<int>,
    i: int,
)
    requires
        mb2::laid_out(b, tags, before),
        0 <= i < tags.len(),
        i == tags.len() - 1 || (bytes::le32(b, tags[i]) == 8 && bytes::le32(b, tags[i] + 4) >= 29),
        forall|j: int| 0 <= j < i ==> bytes::le32(b, #[trigger] tags[j]) != 8,
    ensures
        i == tags.len() - 1 ==> screen_from(b, 8) is Missing,
        i < tags.len() - 1 && b[tags[i] + 28] == 32 ==> (screen_from(b, 8) matches Detected::Screen(
            mode,
        ) && mode.addr == bytes::le64(b, tags[i] + 8) && mode.pitch == bytes::le32(b, tags[i] + 16)
            && mode.width == bytes::le32(b, tags[i] + 20) && mode.height == bytes::le32(
            b,
            tags[i] + 24,
        )),
        i < tags.len() - 1 && b[tags[i] + 28] != 32 ==> screen_from(b, 8) == Detected::Unsupported(
            b[tags[i] + 28],
        ),
{
    lemma_screen_from(b, tags, before, 0, i);
}

proof fn lemma_screen_from(b: Seq<u8>, tags: Seq<int>, before: Seq<int>, j: int, i: int)
    requires
        mb2::laid_out(b, tags, before),
        0 <= j <= i < tags.len(),
        i == tags.len() - 1 || (bytes::le32(b, tags[i]) == 8 && bytes::le32(b, tags[i] + 4) >= 29),
        forall|k: int| 0 <= k < i ==> bytes::le32(b, #[trigger] tags[k]) != 8,
    ensures
        screen_from(b, tags[j]) == if i == tags.len() - 1 {
            Detected::Missing
        } else {
            screen_at(b, tags[i])
        },
        i < tags.len() - 1 ==> tags[i] + 29 <= b.len(),
    decreases i - j,
{
    mb2::lemma_places(b, tags, before, j);
    mb2::lemma_rising(b, tags, before, j);
    assert(tags[j] >= 8);
    if j < tags.len() - 1 {
        mb2::lemma_places(b, tags, before, j + 1);
        mb2::lemma_rising(b, tags, before, j + 1);
        mb2::lemma_next(tags[j], bytes::le32(b, tags[j] + 4), tags[j + 1]);
        assert(mb2::has_tag(b, tags[j]));
        assert(mb2::next_tag(b, tags[j]) == tags[j + 1]);
        if j < i {
            lemma_screen_from(b, tags, before, j + 1, i);
            assert(bytes::le32(b, tags[j]) != 8);
        } else {
            assert(tags[i] + bytes::le32(b, tags[i] + 4) <= b.len());
        }
    }
}

/// A screen of at least eight columns shows eight stripes of equal width, white
/// first and black last; what is left over at the right stays as it was.
pub proof fn law_pattern_has_eight_stripes(width: u32, stripe: int, x: int)
    requires
        width >= 8,
        0 <= stripe < 8,
        stripe * (width / 8) <= x < (stripe + 1) * (width / 8),
    ensures
        pattern(width, x) == Some(COLORS[stripe]),
        COLORS[0] == 0x00FF_FFFF,
        COLORS[7] == 0,
        8 * (width / 8) <= width < 8 * (width / 8) + 8,
        forall|rest: int| 8 * (width / 8) <= rest ==> pattern(width, rest) is None,
{
    let s = (width / 8) as int;
    assert(x / s == stripe) by {
        assert((stripe + 1) * s == stripe * s + s) by (nonlinear_arith);
        vstd::arithmetic::div_mod::lemma_fundamental_div_mod_converse(
            x,
            s,
            stripe,
            x - stripe * s,
        );
    }
    assert(x < 8 * s) by (nonlinear_arith)
        requires
            x < (stripe + 1) * s,
            stripe < 8,
            s > 0,
    ;
}

/// A glyph is drawn with its first row on top and the highest bit of a row at the
/// left: the block of `scale` by `scale` pixels for row `row` and column `col` is
/// coloured if and only if bit `7 - col` of that row is set. Nothing is coloured
/// outside of the eight by eight blocks.
pub proof fn law_glyph_is_drawn_upright(
    rows: Seq<u8>,
    x: int,
    y: int,
    scale: int,
    row: int,
    col: int,
    px: int,
    py: int,
)
    requires
        rows.len() == 8,
        scale > 0,
        x + col * scale <= px < x + (col + 1) * scale,
        y + row * scale <= py < y + (row + 1) * scale,
    ensures
        in_glyph(rows, x, y, scale, px, py) <==> 0 <= row < 8 && 0 <= col < 8 && (rows[row] >> ((7
            - col) as u8)) % 2 == 1,
{
    assert((col + 1) * scale == col * scale + scale) by (nonlinear_arith);
    assert((row + 1) * scale == row * scale + scale) by (nonlinear_arith);
    if 0 <= row < 8 && 0 <= col < 8 {
        lemma_row_bit(rows[row], col as u8);
        assert(in_rect(x + col * scale, y + row * scale, scale, scale, px, py));
    }
    if in_glyph(rows, x, y, scale, px, py) {
        let (r, c) = choose|r: int, c: int|
            0 <= r < 8 && 0 <= c < 8 && row_bit(rows[r], c) && #[trigger] in_rect(
                x + c * scale,
                y + r * scale,
                scale,
                scale,
                px,
                py,
            );
        lemma_same_block(px - x, scale, c, col);
        lemma_same_block(py - y, scale, r, row);
    }
}

proof fn lemma_row_bit(bits: u8, col: u8)
    requires
        col < 8,
    ensures
        row_bit(bits, col as int) == ((bits >> ((7 - col) as u8)) % 2 == 1),
{
    let n = (7 - col) as u8;
    assert((bits & (0x80u8 >> col) != 0) == ((bits >> n) % 2 == 1)) by (bit_vector)
        requires
            col < 8,
            n == 7 - col,
    ;
}

proof fn lemma_same_block(d: int, scale: int, a: int, b: int)
    by (nonlinear_arith)
    requires
        scale > 0,
        a * scale <= d < a * scale + scale,
        b * scale <= d < b * scale + scale,
    ensures
        a == b,
{
}

/// The glyphs of a text stand side by side, nine columns of `scale` pixels apart:
/// a pixel in the columns of one of them is coloured if and only if that glyph
/// colours it there, and the column between two of them stays free.
pub proof fn law_text_runs_to_the_right(
    glyphs: Seq<[u8; 8]>,
    x: int,
    y: int,
    scale: int,
    i: int,
    px: int,
    py: int,
)
    requires
        scale > 0,
        0 <= i < glyphs.len(),
        x + i * (9 * scale) <= px < x + (i + 1) * (9 * scale),
    ensures
        in_text(glyphs, x, y, scale, px, py) <==> in_glyph(
            glyphs[i]@,
            x + i * (9 * scale),
            y,
            scale,
            px,
            py,
        ),
        x + i * (9 * scale) + 8 * scale <= px ==> !in_text(glyphs, x, y, scale, px, py),
{
    let w = 9 * scale;
    assert(advance(scale) == w);
    assert((i + 1) * w == i * w + w) by (nonlinear_arith);
    lemma_glyph_columns(glyphs[i]@, x + i * w, y, scale, px, py);
    if in_text(glyphs, x, y, scale, px, py) {
        let j = choose|j: int|
            0 <= j < glyphs.len() && #[trigger] in_glyph(
                glyphs[j]@,
                x + j * advance(scale),
                y,
                scale,
                px,
                py,
            );
        lemma_glyph_columns(glyphs[j]@, x + j * w, y, scale, px, py);
        lemma_same_block(px - x, w, i, j);
    }
}

proof fn lemma_glyph_columns(rows: Seq<u8>, x: int, y: int, scale: int, px: int, py: int)
    requires
        scale > 0,
    ensures
        in_glyph(rows, x, y, scale, px, py) ==> x <= px < x + 8 * scale,
{
    if in_glyph(rows, x, y, scale, px, py) {
        let (r, c) = choose|r: int, c: int|
            0 <= r < 8 && 0 <= c < 8 && row_bit(rows[r], c) && #[trigger] in_rect(
                x + c * scale,
                y + r * scale,
                scale,
                scale,
                px,
                py,
            );
        assert(0 <= c * scale && c * scale + scale <= 8 * scale) by (nonlinear_arith)
            requires
                0 <= c < 8,
                scale > 0,
        ;
    }
}

/// The pixels stand row by row from the top, each row from the left; so each
/// place on the screen has a pixel of its own.
pub proof fn law_pixels_stand_row_by_row(fb: Framebuffer, x: int, y: int)
    requires
        fb.wf(),
        on_screen(fb.mode_spec(), x, y),
    ensures
        fb.pixel(x, y) == fb@[y * fb.mode_spec().width + x],
        0 <= y * fb.mode_spec().width + x < fb@.len(),
        fb@.len() == fb.mode_spec().width * fb.mode_spec().height,
{
    let (w, h) = (fb.mode_spec().width as int, fb.mode_spec().height as int);
    assert(0 <= y * w + x < w * h) by (nonlinear_arith)
        requires
            0 <= x < w,
            0 <= y < h,
    ;
}

} // verus!
