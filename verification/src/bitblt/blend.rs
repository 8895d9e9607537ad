//! The short cuts for blits from 32-bit forms under rule 34 (blending by the
//! source's alpha) and rule 41 (an alpha for each component), pixel by pixel.
use vstd::prelude::*;
use crate::prim::{sqInt, UsqInt};
use crate::bitblt::memory::{
    long32At, long32Atput, valid_word, with_word, word_at, Memory,
};
use crate::bitblt::state::{
    shl32, shl_word, shr32, shr_word, BitBlt, ALL_ONES, COLOR_MAP_NEW_STYLE,
    DEFAULT_8_TO_32_TABLE, DITHER_MATRIX_4X4,
};
use crate::bitblt::rules::{
    alphaBlendScaledwith, alpha_blend_scaled, dither32To16threshold, dither_pixel, widen16,
};
use crate::bitblt::setup::lemma_area;

verus! {

broadcast use crate::bitblt::memory::group_memory;

/// The bits that are raised in the source of every other pixel of an 8-bit
/// destination.
pub const DITHER_ADJUSTMENT: u32 = 522133279;

/// What has become of the memory once `f` has visited the first `j` rows of `w`
/// pixels, and the first `i` pixels of the next.
pub open spec fn scan(
    f: spec_fn(Seq<u8>, int, int) -> Seq<u8>,
    m: Seq<u8>,
    w: int,
    j: int,
    i: int,
) -> Seq<u8>
    decreases j, i,
{
    if i > 0 {
        f(scan(f, m, w, j, i - 1), j, i - 1)
    } else if j > 0 {
        scan(f, m, w, j - 1, w)
    } else {
        m
    }
}

/// What visits each pixel keeps the size of the memory, so the scan does.
pub(crate) proof fn lemma_scan_len(
    f: spec_fn(Seq<u8>, int, int) -> Seq<u8>,
    m: Seq<u8>,
    w: int,
    j: int,
    i: int,
)
    requires
        forall|x: Seq<u8>, a: int, b: int| (#[trigger] f(x, a, b)).len() == x.len(),
    ensures
        scan(f, m, w, j, i).len() == m.len(),
    decreases j, i,
{
    if i > 0 {
        lemma_scan_len(f, m, w, j, i - 1);
    } else if j > 0 {
        lemma_scan_len(f, m, w, j - 1, w);
    }
}

impl BitBlt {
    /// The clipped blit lies in the positive quadrant of both forms.
    pub open spec fn rect_ok(self) -> bool {
        0 <= self.sx && 0 <= self.sy && 0 <= self.dx && 0 <= self.dy && 0 <= self.bbW && 0
            <= self.bbH
    }

    /// Address of the 32-bit source pixel `i` of row `j`.
    pub open spec fn source32_addr(self, j: int, i: int) -> int {
        self.sourceBits + (self.sy + j) * self.sourcePitch + (self.sx + i) * 4
    }

    /// Every 32-bit source pixel exists.
    pub open spec fn source32_ok(self, size: nat) -> bool {
        forall|j: int, i: int|
            0 <= j < self.bbH && 0 <= i < self.bbW ==> 0 <= #[trigger] self.source32_addr(j, i)
                && self.source32_addr(j, i) + 4 <= size
    }

    /// Address of the destination word that is `words` words into row `j`.
    pub open spec fn dest_addr(self, j: int, words: int) -> int {
        self.destBits + (self.dy + j) * self.destPitch + words * 4
    }

    fn source32Addr(&self, mem: &Memory, j: sqInt, i: sqInt) -> (r: UsqInt)
        requires
            self.source32_ok(mem@.len()),
            self.rect_ok(),
            0 <= j < self.bbH,
            0 <= i < self.bbW,
        ensures
            r == self.source32_addr(j as int, i as int),
            valid_word(mem@, r as int),
    {
        proof {
            mem.lemma_size();
            assert(0 <= self.source32_addr(j as int, i as int));
        }
        offsetAddr(self.sourceBits, self.sy as sqInt + j, self.sourcePitch, self.sx as sqInt + i)
    }

    fn destAddr(&self, mem: &Memory, j: sqInt, words: sqInt) -> (r: UsqInt)
        requires
            valid_word(mem@, self.dest_addr(j as int, words as int)),
            self.rect_ok(),
            0 <= j < self.bbH,
            0 <= words <= 0x2_0000_0000,
        ensures
            r == self.dest_addr(j as int, words as int),
            valid_word(mem@, r as int),
    {
        proof {
            mem.lemma_size();
        }
        offsetAddr(self.destBits, self.dy as sqInt + j, self.destPitch, words)
    }

    // ---- Rule 34 at 32 bits -----------------------------------------------

    /// A 32-bit pixel blended in: copied when opaque, left out when
    /// transparent.
    pub open spec fn blend32_pixel(self, m: Seq<u8>, j: int, i: int) -> Seq<u8> {
        let s = word_at(m, self.source32_addr(j, i));
        let d = self.dest_addr(j, self.dx + i);
        if s >> 24 == 0xFF {
            with_word(m, d, s)
        } else if s >> 24 == 0 {
            m
        } else {
            with_word(m, d, alpha_blend_scaled(s, word_at(m, d)))
        }
    }

    /// The 32-bit destination pixels exist.
    pub open spec fn dest32_ok(self, size: nat) -> bool {
        forall|j: int, i: int|
            0 <= j < self.bbH && 0 <= i < self.bbW ==> 0 <= #[trigger] self.dest_addr(
                j,
                self.dx + i,
            ) && self.dest_addr(j, self.dx + i) + 4 <= size
    }

    /// Rule 34 from 32 bits to 32 bits.
    pub fn alphaSourceBlendBits32(&mut self, mem: &mut Memory)
        requires
            old(self).rect_ok(),
            old(self).source32_ok(old(mem)@.len()),
            old(self).dest32_ok(old(mem)@.len()),
        ensures
            final(mem)@ == scan(
                |m: Seq<u8>, j: int, i: int| old(self).blend32_pixel(m, j, i),
                old(mem)@,
                old(self).bbW as int,
                old(self).bbH as int,
                0,
            ),
            final(mem)@.len() == old(mem)@.len(),
            *final(self) == *old(self),
    {
        let ghost bb = *self;
        let ghost f = |m: Seq<u8>, j: int, i: int| bb.blend32_pixel(m, j, i);
        let height: sqInt = self.bbH as sqInt;
        let width: sqInt = self.bbW as sqInt;
        let mut j: sqInt = 0;
        while j < height
            invariant
                *self == bb,
                bb.rect_ok(),
                bb.source32_ok(old(mem)@.len()),
                bb.dest32_ok(old(mem)@.len()),
                f == (|m: Seq<u8>, j: int, i: int| bb.blend32_pixel(m, j, i)),
                height == bb.bbH,
                width == bb.bbW,
                0 <= j <= height,
                mem@.len() == old(mem)@.len(),
                mem@ == scan(f, old(mem)@, width as int, j as int, 0),
            decreases height - j,
        {
            let mut i: sqInt = 0;
            while i < width
                invariant
                    *self == bb,
                    bb.rect_ok(),
                    bb.source32_ok(old(mem)@.len()),
                    bb.dest32_ok(old(mem)@.len()),
                    f == (|m: Seq<u8>, j: int, i: int| bb.blend32_pixel(m, j, i)),
                    height == bb.bbH,
                    width == bb.bbW,
                    0 <= j < height,
                    0 <= i <= width,
                    mem@.len() == old(mem)@.len(),
                    mem@ == scan(f, old(mem)@, width as int, j as int, i as int),
                decreases width - i,
            {
                assert(0 <= bb.dest_addr(j as int, bb.dx + i));
                let sourceWord: u32 = long32At(mem, self.source32Addr(mem, j, i));
                let srcAlpha: u32 = sourceWord >> 24;
                if srcAlpha == 0xFF {
                    let d: UsqInt = self.destAddr(mem, j, self.dx as sqInt + i);
                    long32Atput(mem, d, sourceWord);
                } else if srcAlpha != 0 {
                    let d: UsqInt = self.destAddr(mem, j, self.dx as sqInt + i);
                    let destWord: u32 = alphaBlendScaledwith(sourceWord, long32At(mem, d));
                    long32Atput(mem, d, destWord);
                }
                i = i + 1;
            }
            assert(scan(f, old(mem)@, width as int, j + 1, 0) == scan(
                f,
                old(mem)@,
                width as int,
                j as int,
                width as int,
            ));
            j = j + 1;
        }
    }

    // ---- Rule 41 at 32 bits -----------------------------------------------

    /// A 32-bit pixel blended in under the mask that the source pixel is. A
    /// mask without color leaves the pixel alone.
    pub open spec fn component32_pixel(self, m: Seq<u8>, j: int, i: int) -> Seq<u8> {
        let s = word_at(m, self.source32_addr(j, i));
        let d = self.dest_addr(j, self.dx + i);
        if s & 0xFFFFFF == 0 {
            m
        } else {
            with_word(m, d, self.component_alpha(m, s, word_at(m, d)))
        }
    }

    /// Rule 41 from 32 bits to 32 bits.
    pub fn rgbComponentAlpha32(&mut self, mem: &mut Memory)
        requires
            old(self).rect_ok(),
            old(self).source32_ok(old(mem)@.len()),
            old(self).dest32_ok(old(mem)@.len()),
            old(self).gammas_ok(old(mem)@.len()),
        ensures
            final(mem)@ == scan(
                |m: Seq<u8>, j: int, i: int| old(self).component32_pixel(m, j, i),
                old(mem)@,
                old(self).bbW as int,
                old(self).bbH as int,
                0,
            ),
            final(mem)@.len() == old(mem)@.len(),
            *final(self) == *old(self),
    {
        let ghost bb = *self;
        let ghost f = |m: Seq<u8>, j: int, i: int| bb.component32_pixel(m, j, i);
        let height: sqInt = self.bbH as sqInt;
        let width: sqInt = self.bbW as sqInt;
        let mut j: sqInt = 0;
        while j < height
            invariant
                *self == bb,
                bb.rect_ok(),
                bb.source32_ok(old(mem)@.len()),
                bb.dest32_ok(old(mem)@.len()),
                bb.gammas_ok(old(mem)@.len()),
                f == (|m: Seq<u8>, j: int, i: int| bb.component32_pixel(m, j, i)),
                height == bb.bbH,
                width == bb.bbW,
                0 <= j <= height,
                mem@.len() == old(mem)@.len(),
                mem@ == scan(f, old(mem)@, width as int, j as int, 0),
            decreases height - j,
        {
            let mut i: sqInt = 0;
            while i < width
                invariant
                    *self == bb,
                    bb.rect_ok(),
                    bb.source32_ok(old(mem)@.len()),
                    bb.dest32_ok(old(mem)@.len()),
                    bb.gammas_ok(old(mem)@.len()),
                    f == (|m: Seq<u8>, j: int, i: int| bb.component32_pixel(m, j, i)),
                    height == bb.bbH,
                    width == bb.bbW,
                    0 <= j < height,
                    0 <= i <= width,
                    mem@.len() == old(mem)@.len(),
                    mem@ == scan(f, old(mem)@, width as int, j as int, i as int),
                decreases width - i,
            {
                assert(0 <= bb.dest_addr(j as int, bb.dx + i));
                let sourceWord: u32 = long32At(mem, self.source32Addr(mem, j, i));
                if sourceWord & 0xFFFFFF != 0 {
                    let d: UsqInt = self.destAddr(mem, j, self.dx as sqInt + i);
                    let destWord: u32 = long32At(mem, d);
                    let blended: u32 = self.rgbComponentAlpha32with(mem, sourceWord, destWord);
                    long32Atput(mem, d, blended);
                }
                i = i + 1;
            }
            assert(scan(f, old(mem)@, width as int, j + 1, 0) == scan(
                f,
                old(mem)@,
                width as int,
                j as int,
                width as int,
            ));
            j = j + 1;
        }
    }
}

impl BitBlt {
    // ---- 16-bit destinations ----------------------------------------------

    /// Pixel `x` is in the high half of its word.
    pub open spec fn in_high_half(self, x: int) -> bool {
        if self.destMSB != 0 {
            x % 2 == 0
        } else {
            x % 2 != 0
        }
    }

    /// The 16-bit pixel in one half of a word, as 32-bit opaque color.
    pub open spec fn half_color(w: u32, high: bool) -> u32 {
        widen16(
            if high {
                w >> 16
            } else {
                w & 0xFFFF
            },
        ) | 0xFF00_0000
    }

    /// A word with one half set to a pixel. A pixel of 0 becomes 1, which is
    /// not transparent.
    pub open spec fn with_half(w: u32, high: bool, v: u32) -> u32 {
        let p = if v == 0 {
            1
        } else {
            v
        };
        if high {
            (w & 0xFFFF) | (p << 16)
        } else {
            (w & 0xFFFF_0000) | p
        }
    }

    /// The dither value for pixel `i` of row `j`.
    pub open spec fn dither_at(self, j: int, i: int) -> int {
        DITHER_MATRIX_4X4[((self.dy + j) % 4) * 4 + (self.sx + i) % 4] as int
    }

    /// Address of the word that holds 16-bit pixel `i` of row `j`.
    pub open spec fn dest16_addr(self, j: int, i: int) -> int {
        self.dest_addr(j, (self.dx + i) / 2)
    }

    /// The 16-bit destination pixels exist.
    pub open spec fn dest16_ok(self, size: nat) -> bool {
        forall|j: int, i: int|
            0 <= j < self.bbH && 0 <= i < self.bbW ==> 0 <= #[trigger] self.dest16_addr(j, i)
                && self.dest16_addr(j, i) + 4 <= size
    }

    /// A 32-bit pixel blended into a 16-bit one and dithered.
    pub open spec fn blend16_pixel(self, m: Seq<u8>, j: int, i: int) -> Seq<u8> {
        let s = word_at(m, self.source32_addr(j, i));
        let d = self.dest16_addr(j, i);
        let w = word_at(m, d);
        let high = self.in_high_half(self.dx + i);
        if s >> 24 == 0 {
            m
        } else {
            let color = if s >> 24 == 0xFF {
                s
            } else {
                alpha_blend_scaled(s, Self::half_color(w, high))
            };
            with_word(m, d, Self::with_half(w, high, dither_pixel(color, self.dither_at(j, i))))
        }
    }

    /// A 32-bit mask applied to a 16-bit pixel, and the result dithered.
    pub open spec fn component16_pixel(self, m: Seq<u8>, j: int, i: int) -> Seq<u8> {
        let s = word_at(m, self.source32_addr(j, i));
        let d = self.dest16_addr(j, i);
        let w = word_at(m, d);
        let high = self.in_high_half(self.dx + i);
        if s & 0xFFFFFF == 0 {
            m
        } else {
            let color = self.component_alpha(m, s, Self::half_color(w, high));
            with_word(m, d, Self::with_half(w, high, dither_pixel(color, self.dither_at(j, i))))
        }
    }

    /// The mask that keeps the other half of the first word of a row.
    pub open spec fn other_half_mask(self) -> u32 {
        if self.in_high_half(self.dx as int) {
            0xFFFF
        } else {
            0xFFFF_0000
        }
    }

    fn inHighHalf(&self, x: sqInt) -> (r: bool)
        requires
            0 <= x,
        ensures
            r == self.in_high_half(x as int),
    {
        if self.destMSB != 0 {
            x % 2 == 0
        } else {
            x % 2 != 0
        }
    }

    fn halfColor(w: u32, high: bool) -> (r: u32)
        ensures
            r == Self::half_color(w, high),
    {
        let p: u32 = if high {
            w >> 16
        } else {
            w & 0xFFFF
        };
        (((p & 0x1F) << 3) | ((p & 0x3E0) << 6) | ((p & 0x7C00) << 9)) | 0xFF000000
    }

    fn withHalf(w: u32, high: bool, v: u32) -> (r: u32)
        ensures
            r == Self::with_half(w, high, v),
    {
        let p: u32 = if v == 0 {
            1
        } else {
            v
        };
        if high {
            (w & 0xFFFF) | (p << 16)
        } else {
            (w & 0xFFFF0000) | p
        }
    }

    fn ditherAt(&self, j: sqInt, i: sqInt) -> (r: i32)
        requires
            self.rect_ok(),
            0 <= j < self.bbH,
            0 <= i < self.bbW,
        ensures
            r == self.dither_at(j as int, i as int),
            0 <= r < 16,
    {
        let row: sqInt = (self.dy as sqInt + j) % 4;
        let column: sqInt = (self.sx as sqInt + i) % 4;
        let at: usize = (row * 4 + column) as usize;
        proof {
            lemma_matrix_range(at as int);
        }
        DITHER_MATRIX_4X4[at]
    }

    /// Rule 34 from 32 bits to 16 bits, dithered. Leaves the mask of the first
    /// pixel in `mask1`.
    pub fn alphaSourceBlendBits16(&mut self, mem: &mut Memory)
        requires
            old(self).rect_ok(),
            old(self).source32_ok(old(mem)@.len()),
            old(self).dest16_ok(old(mem)@.len()),
        ensures
            final(mem)@ == scan(
                |m: Seq<u8>, j: int, i: int| old(self).blend16_pixel(m, j, i),
                old(mem)@,
                old(self).bbW as int,
                old(self).bbH as int,
                0,
            ),
            final(mem)@.len() == old(mem)@.len(),
            *final(self) == (BitBlt { mask1: old(self).other_half_mask(), ..*old(self) }),
    {
        let ghost bb = *self;
        let ghost f = |m: Seq<u8>, j: int, i: int| bb.blend16_pixel(m, j, i);
        let height: sqInt = self.bbH as sqInt;
        let width: sqInt = self.bbW as sqInt;
        let mut j: sqInt = 0;
        while j < height
            invariant
                *self == bb,
                bb.rect_ok(),
                bb.source32_ok(old(mem)@.len()),
                bb.dest16_ok(old(mem)@.len()),
                f == (|m: Seq<u8>, j: int, i: int| bb.blend16_pixel(m, j, i)),
                height == bb.bbH,
                width == bb.bbW,
                0 <= j <= height,
                mem@.len() == old(mem)@.len(),
                mem@ == scan(f, old(mem)@, width as int, j as int, 0),
            decreases height - j,
        {
            let mut i: sqInt = 0;
            while i < width
                invariant
                    *self == bb,
                    bb.rect_ok(),
                    bb.source32_ok(old(mem)@.len()),
                    bb.dest16_ok(old(mem)@.len()),
                    f == (|m: Seq<u8>, j: int, i: int| bb.blend16_pixel(m, j, i)),
                    height == bb.bbH,
                    width == bb.bbW,
                    0 <= j < height,
                    0 <= i <= width,
                    mem@.len() == old(mem)@.len(),
                    mem@ == scan(f, old(mem)@, width as int, j as int, i as int),
                decreases width - i,
            {
                assert(0 <= bb.dest16_addr(j as int, i as int));
                let x: sqInt = self.dx as sqInt + i;
                let ditherThreshold: i32 = self.ditherAt(j, i);
                let sourceWord: u32 = long32At(mem, self.source32Addr(mem, j, i));
                let srcAlpha: u32 = sourceWord >> 24;
                if srcAlpha != 0 {
                    let d: UsqInt = self.destAddr(mem, j, x / 2);
                    let high: bool = self.inHighHalf(x);
                    let destWord: u32 = long32At(mem, d);
                    let color: u32 = if srcAlpha == 0xFF {
                        sourceWord
                    } else {
                        alphaBlendScaledwith(sourceWord, Self::halfColor(destWord, high))
                    };
                    let v: u32 = dither32To16threshold(color, ditherThreshold);
                    long32Atput(mem, d, Self::withHalf(destWord, high, v));
                }
                i = i + 1;
            }
            assert(scan(f, old(mem)@, width as int, j + 1, 0) == scan(
                f,
                old(mem)@,
                width as int,
                j as int,
                width as int,
            ));
            j = j + 1;
        }
        self.mask1 = if self.inHighHalf(self.dx as sqInt) {
            0xFFFF
        } else {
            0xFFFF0000
        };
    }

    /// Rule 41 from 32 bits to 16 bits, dithered. Leaves the mask of the first
    /// pixel in `mask1`.
    pub fn rgbComponentAlpha16(&mut self, mem: &mut Memory)
        requires
            old(self).rect_ok(),
            old(self).source32_ok(old(mem)@.len()),
            old(self).dest16_ok(old(mem)@.len()),
            old(self).gammas_ok(old(mem)@.len()),
        ensures
            final(mem)@ == scan(
                |m: Seq<u8>, j: int, i: int| old(self).component16_pixel(m, j, i),
                old(mem)@,
                old(self).bbW as int,
                old(self).bbH as int,
                0,
            ),
            final(mem)@.len() == old(mem)@.len(),
            *final(self) == (BitBlt { mask1: old(self).other_half_mask(), ..*old(self) }),
    {
        let ghost bb = *self;
        let ghost f = |m: Seq<u8>, j: int, i: int| bb.component16_pixel(m, j, i);
        let height: sqInt = self.bbH as sqInt;
        let width: sqInt = self.bbW as sqInt;
        let mut j: sqInt = 0;
        while j < height
            invariant
                *self == bb,
                bb.rect_ok(),
                bb.source32_ok(old(mem)@.len()),
                bb.dest16_ok(old(mem)@.len()),
                bb.gammas_ok(old(mem)@.len()),
                f == (|m: Seq<u8>, j: int, i: int| bb.component16_pixel(m, j, i)),
                height == bb.bbH,
                width == bb.bbW,
                0 <= j <= height,
                mem@.len() == old(mem)@.len(),
                mem@ == scan(f, old(mem)@, width as int, j as int, 0),
            decreases height - j,
        {
            let mut i: sqInt = 0;
            while i < width
                invariant
                    *self == bb,
                    bb.rect_ok(),
                    bb.source32_ok(old(mem)@.len()),
                    bb.dest16_ok(old(mem)@.len()),
                    bb.gammas_ok(old(mem)@.len()),
                    f == (|m: Seq<u8>, j: int, i: int| bb.component16_pixel(m, j, i)),
                    height == bb.bbH,
                    width == bb.bbW,
                    0 <= j < height,
                    0 <= i <= width,
                    mem@.len() == old(mem)@.len(),
                    mem@ == scan(f, old(mem)@, width as int, j as int, i as int),
                decreases width - i,
            {
                assert(0 <= bb.dest16_addr(j as int, i as int));
                let x: sqInt = self.dx as sqInt + i;
                let ditherThreshold: i32 = self.ditherAt(j, i);
                let sourceWord: u32 = long32At(mem, self.source32Addr(mem, j, i));
                if sourceWord & 0xFFFFFF != 0 {
                    let d: UsqInt = self.destAddr(mem, j, x / 2);
                    let high: bool = self.inHighHalf(x);
                    let destWord: u32 = long32At(mem, d);
                    let color: u32 = self.rgbComponentAlpha32with(
                        mem,
                        sourceWord,
                        Self::halfColor(destWord, high),
                    );
                    let v: u32 = dither32To16threshold(color, ditherThreshold);
                    long32Atput(mem, d, Self::withHalf(destWord, high, v));
                }
                i = i + 1;
            }
            assert(scan(f, old(mem)@, width as int, j + 1, 0) == scan(
                f,
                old(mem)@,
                width as int,
                j as int,
                width as int,
            ));
            j = j + 1;
        }
        self.mask1 = if self.inHighHalf(self.dx as sqInt) {
            0xFFFF
        } else {
            0xFFFF0000
        };
    }

    // ---- 8-bit destinations -----------------------------------------------

    /// The bit position of the 8-bit pixel at place `p` of a word.
    pub open spec fn byte_shift(self, p: int) -> int {
        if self.destMSB != 0 {
            24 - 8 * p
        } else {
            8 * p
        }
    }

    /// The 8-bit pixel at bit `shift` of a word, as 32-bit color.
    pub open spec fn byte_color(w: u32, shift: int) -> u32 {
        DEFAULT_8_TO_32_TABLE[shr_word(w & shl_word(0xFF, shift), shift) as int]
    }

    /// A word with the bits of a pixel put in at bit `shift`.
    pub open spec fn with_byte(w: u32, shift: int, v: u32) -> u32 {
        (w & !shl_word(0xFF, shift)) | shl_word(v, shift)
    }

    /// The adjustment of pixel `i` of row `j`: on for every other pixel.
    pub open spec fn adjustment(self, j: int, i: int) -> u32 {
        let odd = self.dx + (if self.dy % 2 == 0 {
            1int
        } else {
            0
        }) + (j + 1) + j * self.bbW + i;
        if odd % 2 == 0 {
            0
        } else {
            DITHER_ADJUSTMENT
        }
    }

    /// A source word with the adjusted bits raised.
    pub open spec fn adjusted(self, w: u32, j: int, i: int) -> u32 {
        let a = self.adjustment(j, i);
        (w & !a).wrapping_add(a)
    }

    /// Address of the word that holds 8-bit pixel `i` of row `j`.
    pub open spec fn dest8_addr(self, j: int, i: int) -> int {
        self.dest_addr(j, (self.dx + i) / 4)
    }

    /// The 8-bit destination pixels exist.
    pub open spec fn dest8_ok(self, size: nat) -> bool {
        forall|j: int, i: int|
            0 <= j < self.bbH && 0 <= i < self.bbW ==> 0 <= #[trigger] self.dest8_addr(j, i)
                && self.dest8_addr(j, i) + 4 <= size
    }

    /// A 32-bit pixel blended into an 8-bit one: an alpha of 31 and less is
    /// transparent, of 224 and more opaque, and the color goes through the
    /// color map.
    pub open spec fn blend8_pixel(self, m: Seq<u8>, j: int, i: int) -> Seq<u8> {
        let s = self.adjusted(word_at(m, self.source32_addr(j, i)), j, i);
        let d = self.dest8_addr(j, i);
        let w = word_at(m, d);
        let shift = self.byte_shift((self.dx + i) % 4);
        if s >> 24 <= 0x1F {
            m
        } else {
            let color = if s >> 24 < 224 {
                alpha_blend_scaled(s, Self::byte_color(w, shift))
            } else {
                s
            };
            let v = self.map_pixel(m, color as sqInt, self.mapper_flags()) as u32;
            with_word(m, d, Self::with_byte(w, shift, v))
        }
    }

    /// Places to a word as rule 41 counts them: with the low bits first there
    /// is a fifth place, past the end of the word.
    pub open spec fn component8_places(self) -> int {
        if self.destMSB != 0 {
            4
        } else {
            5
        }
    }

    /// Address of the word that rule 41 puts 8-bit pixel `i` of row `j` in.
    pub open spec fn component8_addr(self, j: int, i: int) -> int {
        self.dest_addr(j, self.dx as int / 4 + (self.dx as int % 4 + i) / self.component8_places())
    }

    /// The 8-bit destination words of rule 41 exist.
    pub open spec fn component8_ok(self, size: nat) -> bool {
        forall|j: int, i: int|
            0 <= j < self.bbH && 0 <= i < self.bbW ==> 0 <= #[trigger] self.component8_addr(j, i)
                && self.component8_addr(j, i) + 4 <= size
    }

    /// The mean of the three color bytes of a word.
    pub open spec fn mean_color(w: u32) -> int {
        (((w >> 16) & 0xFF) + ((w >> 8) & 0xFF) + (w & 0xFF)) / 3
    }

    /// A 32-bit mask applied to an 8-bit pixel: a mean of 31 and less is
    /// transparent, above 224 opaque, and the color goes through the color map.
    pub open spec fn component8_pixel(self, m: Seq<u8>, j: int, i: int) -> Seq<u8> {
        let s = self.adjusted(word_at(m, self.source32_addr(j, i)), j, i);
        let d = self.component8_addr(j, i);
        let w = word_at(m, d);
        let shift = self.byte_shift((self.dx as int % 4 + i) % self.component8_places());
        if Self::mean_color(s) <= 0x1F {
            m
        } else {
            let mask = if Self::mean_color(s) > 224 {
                ALL_ONES
            } else {
                s
            };
            let color = self.component_alpha(m, mask, Self::byte_color(w, shift));
            let v = self.map_pixel(m, color as sqInt, self.mapper_flags()) as u32;
            with_word(m, d, Self::with_byte(w, shift, v))
        }
    }

    /// What an 8-bit short cut leaves in the mask registers: the bit position of
    /// the first pixel, and the mask that keeps the rest of its word.
    pub open spec fn with_byte_masks(self) -> BitBlt {
        let shift = self.byte_shift(self.dx as int % 4);
        BitBlt { mask1: shift as u32, mask2: !shl_word(0xFF, shift), ..self }
    }

    fn byteShift(&self, p: sqInt) -> (r: sqInt)
        requires
            0 <= p <= 4,
            self.destMSB != 0 ==> p < 4,
        ensures
            r == self.byte_shift(p as int),
            0 <= r <= 32,
    {
        if self.destMSB != 0 {
            24 - 8 * p
        } else {
            8 * p
        }
    }

    fn byteColor(w: u32, shift: sqInt) -> (r: u32)
        requires
            0 <= shift <= 32,
        ensures
            r == Self::byte_color(w, shift as int),
    {
        let p: u32 = shr32(w & shl32(0xFF, shift), shift);
        proof {
            let n = shift as u32;
            assert(n < 32 ==> (w & (0xFFu32 << n)) >> n <= 0xFF) by (bit_vector);
        }
        DEFAULT_8_TO_32_TABLE[p as usize]
    }

    fn withByte(w: u32, shift: sqInt, v: u32) -> (r: u32)
        ensures
            r == Self::with_byte(w, shift as int, v),
    {
        (w & !shl32(0xFF, shift)) | shl32(v, shift)
    }

    fn adjust(&self, w: u32, j: sqInt, i: sqInt) -> (r: u32)
        requires
            self.rect_ok(),
            0 <= j < self.bbH,
            0 <= i < self.bbW,
        ensures
            r == self.adjusted(w, j as int, i as int),
    {
        proof {
            lemma_area(j as int, self.bbW as int);
        }
        let first: sqInt = if self.dy % 2 == 0 {
            1
        } else {
            0
        };
        let odd: sqInt = self.dx as sqInt + first + (j + 1) + j * self.bbW as sqInt + i;
        proof {
            assert(0 <= j * self.bbW) by (nonlinear_arith)
                requires
                    0 <= j,
                    0 <= self.bbW,
            ;
        }
        let a: u32 = if odd % 2 == 0 {
            0
        } else {
            DITHER_ADJUSTMENT
        };
        (w & !a).wrapping_add(a)
    }

    fn setByteMasks(&mut self)
        requires
            0 <= old(self).dx,
        ensures
            *final(self) == old(self).with_byte_masks(),
    {
        let shift: sqInt = self.byteShift((self.dx % 4) as sqInt);
        self.mask1 = shift as u32;
        self.mask2 = !shl32(0xFF, shift);
    }

    /// Rule 34 from 32 bits to 8 bits, through the color map.
    pub fn alphaSourceBlendBits8(&mut self, mem: &mut Memory)
        requires
            old(self).rect_ok(),
            old(self).source32_ok(old(mem)@.len()),
            old(self).dest8_ok(old(mem)@.len()),
            old(self).map_ok(old(mem)@.len(), old(self).mapper_flags()),
        ensures
            final(mem)@ == scan(
                |m: Seq<u8>, j: int, i: int| old(self).blend8_pixel(m, j, i),
                old(mem)@,
                old(self).bbW as int,
                old(self).bbH as int,
                0,
            ),
            final(mem)@.len() == old(mem)@.len(),
            *final(self) == old(self).with_byte_masks(),
    {
        let ghost bb = *self;
        let ghost f = |m: Seq<u8>, j: int, i: int| bb.blend8_pixel(m, j, i);
        let height: sqInt = self.bbH as sqInt;
        let width: sqInt = self.bbW as sqInt;
        let mapperFlags: sqInt = self.cmFlags & !COLOR_MAP_NEW_STYLE;
        let mut j: sqInt = 0;
        while j < height
            invariant
                *self == bb,
                bb.rect_ok(),
                bb.source32_ok(old(mem)@.len()),
                bb.dest8_ok(old(mem)@.len()),
                mapperFlags == bb.mapper_flags(),
                bb.map_ok(old(mem)@.len(), mapperFlags),
                f == (|m: Seq<u8>, j: int, i: int| bb.blend8_pixel(m, j, i)),
                height == bb.bbH,
                width == bb.bbW,
                0 <= j <= height,
                mem@.len() == old(mem)@.len(),
                mem@ == scan(f, old(mem)@, width as int, j as int, 0),
            decreases height - j,
        {
            let mut i: sqInt = 0;
            while i < width
                invariant
                    *self == bb,
                    bb.rect_ok(),
                    bb.source32_ok(old(mem)@.len()),
                    bb.dest8_ok(old(mem)@.len()),
                    mapperFlags == bb.mapper_flags(),
                    bb.map_ok(old(mem)@.len(), mapperFlags),
                    f == (|m: Seq<u8>, j: int, i: int| bb.blend8_pixel(m, j, i)),
                    height == bb.bbH,
                    width == bb.bbW,
                    0 <= j < height,
                    0 <= i <= width,
                    mem@.len() == old(mem)@.len(),
                    mem@ == scan(f, old(mem)@, width as int, j as int, i as int),
                decreases width - i,
            {
                assert(0 <= bb.dest8_addr(j as int, i as int));
                let x: sqInt = self.dx as sqInt + i;
                let raw: u32 = long32At(mem, self.source32Addr(mem, j, i));
                let sourceWord: u32 = self.adjust(raw, j, i);
                let srcAlpha: u32 = sourceWord >> 24;
                if srcAlpha > 0x1F {
                    let shift: sqInt = self.byteShift(x % 4);
                    let d: UsqInt = self.destAddr(mem, j, x / 4);
                    let destWord: u32 = long32At(mem, d);
                    let color: u32 = if srcAlpha < 224 {
                        alphaBlendScaledwith(sourceWord, Self::byteColor(destWord, shift))
                    } else {
                        sourceWord
                    };
                    let v: u32 = self.mapPixelflags(mem, color as sqInt, mapperFlags) as u32;
                    long32Atput(mem, d, Self::withByte(destWord, shift, v));
                }
                i = i + 1;
            }
            assert(scan(f, old(mem)@, width as int, j + 1, 0) == scan(
                f,
                old(mem)@,
                width as int,
                j as int,
                width as int,
            ));
            j = j + 1;
        }
        self.setByteMasks();
    }

    /// Rule 41 from 32 bits to 8 bits, through the color map.
    pub fn rgbComponentAlpha8(&mut self, mem: &mut Memory)
        requires
            old(self).rect_ok(),
            old(self).source32_ok(old(mem)@.len()),
            old(self).component8_ok(old(mem)@.len()),
            old(self).gammas_ok(old(mem)@.len()),
            old(self).map_ok(old(mem)@.len(), old(self).mapper_flags()),
        ensures
            final(mem)@ == scan(
                |m: Seq<u8>, j: int, i: int| old(self).component8_pixel(m, j, i),
                old(mem)@,
                old(self).bbW as int,
                old(self).bbH as int,
                0,
            ),
            final(mem)@.len() == old(mem)@.len(),
            *final(self) == old(self).with_byte_masks(),
    {
        let ghost bb = *self;
        let ghost f = |m: Seq<u8>, j: int, i: int| bb.component8_pixel(m, j, i);
        let height: sqInt = self.bbH as sqInt;
        let width: sqInt = self.bbW as sqInt;
        let mapperFlags: sqInt = self.cmFlags & !COLOR_MAP_NEW_STYLE;
        let places: sqInt = if self.destMSB != 0 {
            4
        } else {
            5
        };
        let mut j: sqInt = 0;
        while j < height
            invariant
                *self == bb,
                bb.rect_ok(),
                bb.source32_ok(old(mem)@.len()),
                bb.component8_ok(old(mem)@.len()),
                bb.gammas_ok(old(mem)@.len()),
                mapperFlags == bb.mapper_flags(),
                bb.map_ok(old(mem)@.len(), mapperFlags),
                places == bb.component8_places(),
                f == (|m: Seq<u8>, j: int, i: int| bb.component8_pixel(m, j, i)),
                height == bb.bbH,
                width == bb.bbW,
                0 <= j <= height,
                mem@.len() == old(mem)@.len(),
                mem@ == scan(f, old(mem)@, width as int, j as int, 0),
            decreases height - j,
        {
            let mut i: sqInt = 0;
            while i < width
                invariant
                    *self == bb,
                    bb.rect_ok(),
                    bb.source32_ok(old(mem)@.len()),
                    bb.component8_ok(old(mem)@.len()),
                    bb.gammas_ok(old(mem)@.len()),
                    mapperFlags == bb.mapper_flags(),
                    bb.map_ok(old(mem)@.len(), mapperFlags),
                    places == bb.component8_places(),
                    f == (|m: Seq<u8>, j: int, i: int| bb.component8_pixel(m, j, i)),
                    height == bb.bbH,
                    width == bb.bbW,
                    0 <= j < height,
                    0 <= i <= width,
                    mem@.len() == old(mem)@.len(),
                    mem@ == scan(f, old(mem)@, width as int, j as int, i as int),
                decreases width - i,
            {
                assert(0 <= bb.component8_addr(j as int, i as int));
                let x: sqInt = (self.dx % 4) as sqInt + i;
                let raw: u32 = long32At(mem, self.source32Addr(mem, j, i));
                let sourceWord: u32 = self.adjust(raw, j, i);
                proof {
                    crate::bitblt::color::lemma_channels(sourceWord);
                }
                // the mean of the three component alphas
                let srcAlpha: u32 = (((sourceWord >> 16) & 0xFF) + ((sourceWord >> 8) & 0xFF) + (
                sourceWord & 0xFF)) / 3;
                if srcAlpha > 0x1F {
                    let mask: u32 = if srcAlpha > 224 {
                        0xFFFFFFFF
                    } else {
                        sourceWord
                    };
                    let shift: sqInt = self.byteShift(x % places);
                    let d: UsqInt = self.destAddr(mem, j, (self.dx / 4) as sqInt + x / places);
                    let destWord: u32 = long32At(mem, d);
                    let color: u32 = self.rgbComponentAlpha32with(
                        mem,
                        mask,
                        Self::byteColor(destWord, shift),
                    );
                    let v: u32 = self.mapPixelflags(mem, color as sqInt, mapperFlags) as u32;
                    long32Atput(mem, d, Self::withByte(destWord, shift, v));
                }
                i = i + 1;
            }
            assert(scan(f, old(mem)@, width as int, j + 1, 0) == scan(
                f,
                old(mem)@,
                width as int,
                j as int,
                width as int,
            ));
            j = j + 1;
        }
        self.setByteMasks();
    }
}

proof fn lemma_matrix_range(at: int)
    requires
        0 <= at < 16,
    ensures
        0 <= DITHER_MATRIX_4X4[at] < 16,
{
}

/// The address `row` rows of `pitch` bytes and `words` words past a base.
fn offsetAddr(base: UsqInt, row: sqInt, pitch: i32, words: sqInt) -> (r: UsqInt)
    requires
        0 <= row <= 0x1_0000_0000,
        0 <= words <= 0x2_0000_0000,
        0 <= base + row * pitch + words * 4 <= UsqInt::MAX,
    ensures
        r == base + row * pitch + words * 4,
{
    assert(-0x8000_0000_0000_0000 <= row * pitch <= 0x8000_0000_0000_0000) by (nonlinear_arith)
        requires
            0 <= row <= 0x1_0000_0000,
            -0x8000_0000 <= pitch <= 0x7FFF_FFFF,
    ;
    let at: i128 = base as i128 + row as i128 * pitch as i128 + words as i128 * 4;
    at as UsqInt
}

} // verus!
