//! Console fonts in the PSF1 format: two magic bytes, a mode, the height of a
//! glyph, then the glyphs. A glyph is 8 pixels wide: one byte per row.
use vstd::prelude::*;

verus! {

pub const PSF1_MAGIC0: u8 = 0x36;

pub const PSF1_MAGIC1: u8 = 0x04;

/// Bit of the mode: 512 glyphs instead of 256.
pub const PSF1_MODE512: u8 = 0x01;

pub struct PsfFont<'a> {
    pub data: &'a [u8],
    pub glyph_height: usize,
    pub num_glyphs: usize,
}

/// How many glyphs a font with this mode holds.
pub open spec fn glyph_count(mode: u8) -> int {
    if mode % 2 == PSF1_MODE512 {
        512
    } else {
        256
    }
}

/// Whether the bytes are a whole font.
pub open spec fn is_font(b: Seq<u8>) -> bool {
    &&& b.len() >= 4
    &&& b[0] == PSF1_MAGIC0
    &&& b[1] == PSF1_MAGIC1
    &&& b.len() >= 4 + glyph_count(b[2]) * b[3]
}

impl<'a> PsfFont<'a> {
    /// The bytes of the font file.
    pub open spec fn bytes(&self) -> Seq<u8> {
        self.data@
    }

    pub open spec fn wf(&self) -> bool {
        &&& is_font(self.bytes())
        &&& self.glyph_height == self.bytes()[3]
        &&& self.num_glyphs == glyph_count(self.bytes()[2])
    }

    /// Reads a font. `None` if the magic bytes are wrong or the file is cut off.
    pub fn parse(data: &'a [u8]) -> (r: Option<PsfFont<'a>>)
        ensures
            r is Some <==> is_font(data@),
            r matches Some(f) ==> f.wf() && f.bytes() == data@,
    {
        if data.len() < 4 || data[0] != PSF1_MAGIC0 || data[1] != PSF1_MAGIC1 {
            return None;
        }
        let mode = data[2];
        let charsize = data[3] as usize;
        let num_glyphs: usize = if mode % 2 == PSF1_MODE512 {
            512
        } else {
            256
        };
        assert(num_glyphs * charsize <= 512 * 255) by (nonlinear_arith)
            requires
                num_glyphs <= 512,
                charsize <= 255,
        ;
        let expected_len = 4 + num_glyphs * charsize;
        if data.len() < expected_len {
            return None;
        }
        Some(PsfFont { data, glyph_height: charsize, num_glyphs })
    }

    /// The rows of the glyph of byte `c`, top first. Every font has at least
    /// 256 glyphs, so every byte has one.
    pub fn glyph(&self, c: u8) -> (r: Option<&[u8]>)
        requires
            self.wf(),
        ensures
            r matches Some(rows) && rows@ == self.bytes().subrange(
                4 + c * self.glyph_height,
                4 + (c + 1) * self.glyph_height,
            ),
    {
        let index = c as usize;
        if index >= self.num_glyphs {
            return None;
        }
        assert(index * self.glyph_height + self.glyph_height <= self.num_glyphs
            * self.glyph_height) by (nonlinear_arith)
            requires
                index + 1 <= self.num_glyphs,
                self.glyph_height >= 0,
        ;
        assert((c + 1) * self.glyph_height == c * self.glyph_height + self.glyph_height)
            by (nonlinear_arith);
        let len = self.data.len();
        assert(0 <= index * self.glyph_height) by (nonlinear_arith)
            requires
                index >= 0,
                self.glyph_height >= 0,
        ;
        let start = 4 + index * self.glyph_height;
        let end = start + self.glyph_height;
        Some(vstd::slice::slice_subrange(self.data, start, end))
    }
}

/// A font is recognised by its two first bytes and by holding all of its glyphs:
/// 512 of them where the lowest bit of the third byte is set and 256 otherwise,
/// each of as many bytes as the fourth byte says.
pub proof fn law_font_holds_its_glyphs(b: Seq<u8>)
    ensures
        is_font(b) <==> b.len() >= 4 && b[0] == 0x36 && b[1] == 0x04 && b.len() >= 4 + (if b[2] % 2
            == 1 {
            512int
        } else {
            256
        }) * b[3],
{
}

} // verus!
