//! Bitmap fonts.
use vstd::prelude::*;

verus! {

/// A fixed-width bitmap font for a run of consecutive characters.
pub struct Font {
    /// Width of a glyph in pixels.
    pub w: usize,
    /// Height of a glyph in pixels.
    pub h: usize,
    /// The first character that has a glyph.
    pub first: char,
    /// The pixels of each glyph, row by row.
    pub glyphs: Vec<Vec<bool>>,
}

impl Font {
    /// Whether the glyph of `ch` has ink at (`x`, `y`). A character without a glyph has none, and
    /// neither does a place outside the glyph.
    pub open spec fn inked(self, ch: char, x: int, y: int) -> bool {
        let g = ch as u32 - self.first as u32;
        &&& 0 <= g < self.glyphs@.len()
        &&& 0 <= x < self.w
        &&& 0 <= y < self.h
        &&& y * self.w + x < self.glyphs@[g]@.len()
        &&& self.glyphs@[g]@[y * self.w + x]
    }

    /// Whether the glyph of `ch` has ink at (`x`, `y`).
    pub fn pixel(&self, ch: char, x: usize, y: usize) -> (r: bool)
        ensures
            r == self.inked(ch, x as int, y as int),
    {
        if (ch as u32) < (self.first as u32) || x >= self.w || y >= self.h {
            return false;
        }
        let g: usize = (ch as u32 - self.first as u32) as usize;
        if g >= self.glyphs.len() {
            return false;
        }
        let glyph = &self.glyphs[g];
        let at: u128 = {
            assert(0 <= y * self.w <= usize::MAX * usize::MAX) by (nonlinear_arith)
                requires
                    0 <= y <= usize::MAX,
                    0 <= self.w <= usize::MAX,
            ;
            assert(usize::MAX * usize::MAX + usize::MAX <= u128::MAX) by (nonlinear_arith)
                requires
                    usize::MAX <= 0xffff_ffff_ffff_ffff,
            ;
            y as u128 * self.w as u128 + x as u128
        };
        at < glyph.len() as u128 && glyph[at as usize]
    }
}

} // verus!
