//! Color maps, and blending with a separate alpha for each color component.
use vstd::prelude::*;
use crate::prim::{sqInt, UsqInt};
use crate::bitblt::memory::{byteAtPointer, Memory};
use crate::bitblt::state::{
    maskFor, shift_long, shift_sq, shl32, shl_word, shr32, shr_word, BitBlt, CmTable, ALPHA_INDEX,
    BLUE_INDEX, COLOR_MAP_FIXED_PART, COLOR_MAP_INDEXED_PART, COLOR_MAP_PRESENT, GREEN_INDEX,
    RED_INDEX,
};
use crate::bitblt::rules::{
    channel, field_mask, lemma_next_field, pack4, rgbMapfromto, rgb_map, rgb_map_fits, widen16,
};
use crate::bitblt::merge::{lemma_and_bounds, lemma_ppw_bound, lemma_shift_zero};

verus! {

impl BitBlt {
    // ---- Component alpha --------------------------------------------------

    /// A byte through a table of 256 bytes; unchanged when there is no table.
    pub open spec fn through_table(m: Seq<u8>, table: UsqInt, v: u32) -> u32 {
        if table == 0 {
            v
        } else {
            m[table + v] as u32
        }
    }

    /// A gamma table can be read.
    pub open spec fn gamma_ok(size: nat, table: UsqInt) -> bool {
        table == 0 || table + 256 <= size
    }

    /// Both gamma tables can be read.
    pub open spec fn gammas_ok(self, size: nat) -> bool {
        Self::gamma_ok(size, self.gammaLookupTable) && Self::gamma_ok(size, self.ungammaLookupTable)
    }

    /// `d * (255 - a) / 256 + s * a / 256`, held to a byte.
    pub open spec fn lerp_channel(d: u32, s: u32, a: u32) -> u32 {
        let v = (d * (255 - a)) / 256 + (s * a) / 256;
        if v > 255 {
            255
        } else {
            v as u32
        }
    }

    /// A component's own alpha, scaled by the alpha of the whole blit.
    pub open spec fn scaled_alpha(self, a: u32) -> u32 {
        let whole = (self.componentAlphaModeAlpha & 0xFF) as u32;
        if whole == 0xFF {
            a
        } else {
            ((a * whole) / 256) as u32
        }
    }

    /// One color component: the blit's color over the destination, linear light
    /// in between when there are gamma tables.
    pub open spec fn blended_component(self, m: Seq<u8>, mask: u32, d: u32, at: u32) -> u32 {
        Self::through_table(
            m,
            self.gammaLookupTable,
            Self::lerp_channel(
                Self::through_table(m, self.ungammaLookupTable, channel(d, at)),
                Self::through_table(
                    m,
                    self.ungammaLookupTable,
                    channel(self.componentAlphaModeColor as u32, at),
                ),
                self.scaled_alpha(channel(mask, at)),
            ),
        )
    }

    /// The blit's color over one 32-bit pixel, under a mask that gives an alpha
    /// for each component. A mask of 0 leaves the pixel alone.
    pub open spec fn component_alpha(self, m: Seq<u8>, mask: u32, d: u32) -> u32 {
        if mask == 0 {
            d
        } else {
            pack4(
                Self::lerp_channel(channel(d, 24), 256, self.scaled_alpha(channel(mask, 24))),
                self.blended_component(m, mask, d, 16),
                self.blended_component(m, mask, d, 8),
                self.blended_component(m, mask, d, 0),
            )
        }
    }

    fn throughTable(mem: &Memory, table: UsqInt, v: u32) -> (r: u32)
        requires
            Self::gamma_ok(mem@.len(), table),
            v <= 255,
        ensures
            r == Self::through_table(mem@, table, v),
            r <= 255,
    {
        proof {
            mem.lemma_size();
        }
        if table == 0 {
            v
        } else {
            byteAtPointer(mem, table + v as UsqInt) as u32
        }
    }

    /// A scaled alpha is one.
    pub(crate) proof fn lemma_scaled_alpha(self, a: u32)
        requires
            a <= 255,
        ensures
            self.scaled_alpha(a) <= 255,
            0 <= (self.componentAlphaModeAlpha & 0xFF) <= 255,
            0 <= a * (self.componentAlphaModeAlpha & 0xFF) <= 65025,
    {
        let x = self.componentAlphaModeAlpha;
        lemma_and_bounds(x, 0xFF);
        let whole = x & 0xFF;
        assert(0 <= a * whole <= 65025) by (nonlinear_arith)
            requires
                0 <= a <= 255,
                0 <= whole <= 255,
        ;
    }

    fn scaledAlpha(&self, a: u32) -> (r: u32)
        requires
            a <= 255,
        ensures
            r == self.scaled_alpha(a),
            r <= 255,
    {
        let x: sqInt = self.componentAlphaModeAlpha;
        proof {
            self.lemma_scaled_alpha(a);
        }
        let whole: u32 = (x & 0xFF) as u32;
        if whole != 0xFF {
            (a * whole) / 256
        } else {
            a
        }
    }

    fn lerpChannel(d: u32, s: u32, a: u32) -> (r: u32)
        requires
            d <= 255,
            s <= 256,
            a <= 255,
        ensures
            r == Self::lerp_channel(d, s, a),
            r <= 255,
    {
        assert(0 <= d * (255 - a) <= 65025 && 0 <= s * a <= 65280) by (nonlinear_arith)
            requires
                d <= 255,
                s <= 256,
                a <= 255,
        ;
        let v: u32 = (d * (0xFF - a)) / 256 + (s * a) / 256;
        if v > 0xFF {
            0xFF
        } else {
            v
        }
    }

    fn blendedComponent(&self, mem: &Memory, maskByte: u32, destByte: u32, colorByte: u32) -> (r:
        u32)
        requires
            self.gammas_ok(mem@.len()),
            maskByte <= 255,
            destByte <= 255,
            colorByte <= 255,
        ensures
            r == Self::through_table(
                mem@,
                self.gammaLookupTable,
                Self::lerp_channel(
                    Self::through_table(mem@, self.ungammaLookupTable, destByte),
                    Self::through_table(mem@, self.ungammaLookupTable, colorByte),
                    self.scaled_alpha(maskByte),
                ),
            ),
            r <= 255,
    {
        let d: u32 = Self::throughTable(mem, self.ungammaLookupTable, destByte);
        let s: u32 = Self::throughTable(mem, self.ungammaLookupTable, colorByte);
        let a: u32 = self.scaledAlpha(maskByte);
        let v: u32 = Self::lerpChannel(d, s, a);
        Self::throughTable(mem, self.gammaLookupTable, v)
    }

    /// Blends the blit's color into one 32-bit pixel under a mask.
    pub fn rgbComponentAlpha32with(
        &mut self,
        mem: &Memory,
        sourceWord: u32,
        destinationWord: u32,
    ) -> (r: u32)
        requires
            old(self).gammas_ok(mem@.len()),
        ensures
            r == old(self).component_alpha(mem@, sourceWord, destinationWord),
            *final(self) == *old(self),
    {
        if sourceWord == 0 {
            return destinationWord;
        }
        let color: u32 = self.componentAlphaModeColor as u32;
        proof {
            lemma_channels(sourceWord);
            lemma_channels(destinationWord);
            lemma_channels(color);
        }
        let b: u32 = self.blendedComponent(
            mem,
            sourceWord & 0xFF,
            destinationWord & 0xFF,
            color & 0xFF,
        );
        let g: u32 = self.blendedComponent(
            mem,
            (sourceWord >> 8) & 0xFF,
            (destinationWord >> 8) & 0xFF,
            (color >> 8) & 0xFF,
        );
        let r: u32 = self.blendedComponent(
            mem,
            (sourceWord >> 16) & 0xFF,
            (destinationWord >> 16) & 0xFF,
            (color >> 16) & 0xFF,
        );
        // alpha is not gamma corrected
        let aA: u32 = self.scaledAlpha((sourceWord >> 24) & 0xFF);
        let a: u32 = Self::lerpChannel((destinationWord >> 24) & 0xFF, 256, aA);
        (a << 24) | (r << 16) | (g << 8) | b
    }

    /// A pixel of the destination depth as 32-bit color.
    pub open spec fn widened(self, p: u32) -> u32 {
        if self.destDepth == 32 {
            p
        } else if self.destDepth == 16 {
            widen16(p) | 0xFF00_0000
        } else {
            (rgb_map(p as sqInt, self.destDepth as int, 32) as sqInt as u32) | 0xFF00_0000
        }
    }

    /// A 32-bit color as a pixel of the destination depth.
    pub open spec fn narrowed(self, v: u32) -> u32 {
        if self.destDepth == 32 {
            v
        } else {
            rgb_map(v as sqInt, 32, self.destDepth as int) as sqInt as u32
        }
    }

    /// Component alpha on pixel `i` of two words, in place.
    pub open spec fn component_pixel(self, m: Seq<u8>, s: u32, d: u32, i: int) -> u32 {
        let depth = self.destDepth as int;
        let mask = field_mask(depth, i);
        shl_word(
            self.narrowed(
                self.component_alpha(
                    m,
                    self.widened(shr_word(s & mask, i * depth)),
                    self.widened(shr_word(d & mask, i * depth)),
                ),
            ),
            i * depth,
        )
    }

    /// Component alpha on the first `n` pixels of two words.
    pub open spec fn component_pixels(self, m: Seq<u8>, s: u32, d: u32, n: int) -> u32
        decreases n,
    {
        if n <= 0 {
            0
        } else {
            self.component_pixels(m, s, d, n - 1) | self.component_pixel(m, s, d, n - 1)
        }
    }

    /// Rule 41 of two words.
    pub open spec fn component_word(self, m: Seq<u8>, s: u32, d: u32) -> u32 {
        if s == 0 {
            d
        } else {
            self.component_pixels(m, s, d, self.destPPW as int)
        }
    }

    fn widen(&self, p: u32) -> (r: u32)
        requires
            self.dest_wf(),
        ensures
            r == self.widened(p),
    {
        if self.destDepth == 32 {
            p
        } else if self.destDepth == 16 {
            ((p & 0x1F) << 3) | ((p & 0x3E0) << 6) | ((p & 0x7C00) << 9) | 0xFF000000
        } else {
            proof {
                lemma_widening_fits(p, self.destDepth as int);
            }
            rgbMapfromto(p as sqInt, self.destDepth as sqInt, 32) as u32 | 0xFF000000
        }
    }

    fn narrow(&self, v: u32) -> (r: u32)
        requires
            self.dest_wf(),
        ensures
            r == self.narrowed(v),
    {
        if self.destDepth == 32 {
            v
        } else {
            proof {
                lemma_narrowing_fits(v, self.destDepth as int);
            }
            rgbMapfromto(v as sqInt, 32, self.destDepth as sqInt) as u32
        }
    }

    /// Rule 41: blends the blit's color into every pixel of the word, the
    /// source pixels being the masks.
    pub fn rgbComponentAlphawith(
        &mut self,
        mem: &Memory,
        sourceWord: u32,
        destinationWord: u32,
    ) -> (r: u32)
        requires
            old(self).dest_wf(),
            old(self).gammas_ok(mem@.len()),
        ensures
            r == old(self).component_word(mem@, sourceWord, destinationWord),
            *final(self) == *old(self),
    {
        if sourceWord == 0 {
            return destinationWord;
        }
        let destDepth: sqInt = self.destDepth as sqInt;
        let ppw: sqInt = self.destPPW;
        let mut mask: u32 = maskFor(destDepth);
        let mut result: u32 = 0;
        let mut at: sqInt = 0;
        let mut i: sqInt = 0;
        proof {
            lemma_ppw_bound(*self);
            lemma_next_field(destDepth as int, 0);
        }
        while i < ppw
            invariant
                *self == *old(self),
                self.dest_wf(),
                self.gammas_ok(mem@.len()),
                destDepth == self.destDepth,
                ppw == self.destPPW,
                1 <= ppw <= 32,
                0 <= i <= ppw,
                at == i * destDepth,
                0 <= at <= 1024,
                mask == field_mask(destDepth as int, i as int),
                result == self.component_pixels(mem@, sourceWord, destinationWord, i as int),
            decreases ppw - i,
        {
            let p1: u32 = self.widen(shr32(sourceWord & mask, at));
            let p2: u32 = self.widen(shr32(destinationWord & mask, at));
            let v: u32 = self.rgbComponentAlpha32with(mem, p1, p2);
            let n: u32 = self.narrow(v);
            result = result | shl32(n, at);
            proof {
                lemma_next_field(destDepth as int, i as int);
                assert((i + 1) * destDepth == i * destDepth + destDepth && (i + 1) * destDepth
                    <= 1024) by (nonlinear_arith)
                    requires
                        0 <= i < 32,
                        1 <= destDepth <= 32,
                ;
            }
            mask = shl32(mask, destDepth);
            at = at + destDepth;
            i = i + 1;
        }
        result
    }

    // ---- Color maps -------------------------------------------------------

    /// Entry `i` of the fixed part of the map, applied to a pixel.
    pub open spec fn fixed_term(self, m: Seq<u8>, pixel: sqInt, i: int) -> sqInt {
        shift_long(pixel & (self.mask_entry(m, i) as sqInt), self.shift_entry(m, i) as int)
    }

    /// A pixel through the fixed part of the map: four masked and shifted
    /// components.
    pub open spec fn map_fixed(self, m: Seq<u8>, pixel: sqInt) -> sqInt {
        self.fixed_term(m, pixel, 0) | self.fixed_term(m, pixel, 1) | self.fixed_term(m, pixel, 2)
            | self.fixed_term(m, pixel, 3)
    }

    /// A pixel through the whole map: the fixed part, which takes no pixel that
    /// is not 0 to 0, then the lookup table, as far as `flags` has them.
    pub open spec fn map_pixel(self, m: Seq<u8>, pixel: sqInt, flags: sqInt) -> sqInt {
        if flags & COLOR_MAP_PRESENT == 0 {
            pixel
        } else {
            let fixed = self.map_fixed(m, pixel);
            let pv = if flags & COLOR_MAP_FIXED_PART == 0 {
                pixel
            } else if fixed == 0 && pixel != 0 {
                1
            } else {
                fixed
            };
            if flags & COLOR_MAP_INDEXED_PART == 0 {
                pv
            } else {
                self.lookup(m, pv) as sqInt
            }
        }
    }

    /// The tables that a map with these flags reads are there.
    pub open spec fn map_ok(self, size: nat, flags: sqInt) -> bool {
        flags & COLOR_MAP_PRESENT != 0 ==> {
            &&& flags & COLOR_MAP_FIXED_PART != 0 ==> Self::table_ok(size, self.cmShiftTable)
                && Self::table_ok(size, self.cmMaskTable)
            &&& flags & COLOR_MAP_INDEXED_PART != 0 ==> self.lookup_ok(size)
        }
    }

    /// Applies the fixed part of the color map to a pixel.
    pub fn rgbMapPixelflags(&self, mem: &Memory, sourcePixel: sqInt) -> (r: sqInt)
        requires
            Self::table_ok(mem@.len(), self.cmShiftTable),
            Self::table_ok(mem@.len(), self.cmMaskTable),
        ensures
            r == self.map_fixed(mem@, sourcePixel),
    {
        let t0: sqInt = shift_sq(
            sourcePixel & self.cmMaskAt(mem, 0) as sqInt,
            self.cmShiftAt(mem, 0) as sqInt,
        );
        let t1: sqInt = shift_sq(
            sourcePixel & self.cmMaskAt(mem, 1) as sqInt,
            self.cmShiftAt(mem, 1) as sqInt,
        );
        let t2: sqInt = shift_sq(
            sourcePixel & self.cmMaskAt(mem, 2) as sqInt,
            self.cmShiftAt(mem, 2) as sqInt,
        );
        let t3: sqInt = shift_sq(
            sourcePixel & self.cmMaskAt(mem, 3) as sqInt,
            self.cmShiftAt(mem, 3) as sqInt,
        );
        t0 | t1 | t2 | t3
    }

    /// Takes one pixel through the color map.
    pub fn mapPixelflags(&self, mem: &Memory, sourcePixel: sqInt, mapperFlags: sqInt) -> (r: sqInt)
        requires
            self.map_ok(mem@.len(), mapperFlags),
        ensures
            r == self.map_pixel(mem@, sourcePixel, mapperFlags),
    {
        let mut pv: sqInt = sourcePixel;
        if mapperFlags & COLOR_MAP_PRESENT != 0 {
            if mapperFlags & COLOR_MAP_FIXED_PART != 0 {
                pv = self.rgbMapPixelflags(mem, sourcePixel);
                if pv == 0 && sourcePixel != 0 {
                    pv = 1;
                }
            }
            if mapperFlags & COLOR_MAP_INDEXED_PART != 0 {
                pv = self.cmLookupAt(mem, pv) as sqInt;
            }
        }
        pv
    }

    /// The fixed part of the map changes nothing: a table is missing, or every
    /// byte is kept in its place.
    pub open spec fn is_identity_map(self, m: Seq<u8>) -> bool {
        self.cmShiftTable == CmTable::Null || self.cmMaskTable == CmTable::Null || {
            &&& forall|i: int| 0 <= i < 4 ==> self.shift_entry(m, i) == 0
            &&& self.mask_entry(m, 0) == 0xFF0000
            &&& self.mask_entry(m, 1) == 0xFF00
            &&& self.mask_entry(m, 2) == 0xFF
            &&& self.mask_entry(m, 3) == 0xFF000000
        }
    }

    /// Whether the fixed part of the map changes nothing.
    pub fn isIdentityMapwith(&self, mem: &Memory) -> (r: bool)
        requires
            Self::table_ok(mem@.len(), self.cmShiftTable),
            Self::table_ok(mem@.len(), self.cmMaskTable),
        ensures
            r == self.is_identity_map(mem@),
    {
        if self.cmShiftTable == CmTable::Null || self.cmMaskTable == CmTable::Null {
            return true;
        }
        let r: i32 = self.cmShiftAt(mem, RED_INDEX);
        let g: i32 = self.cmShiftAt(mem, GREEN_INDEX);
        let b: i32 = self.cmShiftAt(mem, BLUE_INDEX);
        let a: i32 = self.cmShiftAt(mem, ALPHA_INDEX);
        r == 0 && g == 0 && b == 0 && a == 0 && self.cmMaskAt(mem, RED_INDEX) == 0xFF0000
            && self.cmMaskAt(mem, GREEN_INDEX) == 0xFF00 && self.cmMaskAt(mem, BLUE_INDEX) == 0xFF
            && self.cmMaskAt(mem, ALPHA_INDEX) == 0xFF000000
    }

    /// The mask of component `i` (red, green, blue, alpha) of a source pixel of
    /// `from` bits per component, as far as it survives at `to` bits.
    pub open spec fn component_mask(from: int, to: int, i: int) -> u32 {
        let narrower = if to <= from {
            to
        } else {
            from
        };
        let mask = shl_word(1, narrower).wrapping_sub(1);
        let dropped = if to <= from {
            from - to
        } else {
            0
        };
        if i == 0 {
            shl_word(mask, from * 2 + dropped)
        } else if i == 1 {
            shl_word(mask, from + dropped)
        } else if i == 2 {
            shl_word(mask, dropped)
        } else {
            0
        }
    }

    /// How far component `i` moves.
    pub open spec fn component_shift(from: int, to: int, i: int) -> i32 {
        if i == 0 {
            ((to - from) * 3) as i32
        } else if i == 1 {
            ((to - from) * 2) as i32
        } else if i == 2 {
            (to - from) as i32
        } else {
            0
        }
    }

    /// The registers with the local tables set up to convert pixels of `from`
    /// bits per component to `to` bits. Equal widths need no tables.
    pub open spec fn with_color_masks(self, from: int, to: int) -> BitBlt {
        if from == to {
            self
        } else {
            BitBlt {
                cmLocalMasks: [
                    Self::component_mask(from, to, 0),
                    Self::component_mask(from, to, 1),
                    Self::component_mask(from, to, 2),
                    Self::component_mask(from, to, 3),
                ],
                cmLocalShifts: [
                    Self::component_shift(from, to, 0),
                    Self::component_shift(from, to, 1),
                    Self::component_shift(from, to, 2),
                    Self::component_shift(from, to, 3),
                ],
                cmShiftTable: CmTable::Local,
                cmMaskTable: CmTable::Local,
                cmFlags: self.cmFlags | (COLOR_MAP_PRESENT | COLOR_MAP_FIXED_PART),
                ..self
            }
        }
    }

    /// Sets the local tables up for a conversion between component widths.
    pub fn setupColorMasksFromto(&mut self, srcBits: sqInt, targetBits: sqInt)
        requires
            -0x800_0000_0000_0000 <= srcBits <= 0x800_0000_0000_0000,
            -0x800_0000_0000_0000 <= targetBits <= 0x800_0000_0000_0000,
        ensures
            *final(self) == old(self).with_color_masks(srcBits as int, targetBits as int),
    {
        let deltaBits: sqInt = targetBits - srcBits;
        if deltaBits == 0 {
            return;
        }
        let ghost set = self.with_color_masks(srcBits as int, targetBits as int);
        if deltaBits <= 0 {
            let mask: u32 = shl32(1, targetBits).wrapping_sub(1);
            self.cmLocalMasks[RED_INDEX] = shl32(mask, (srcBits * 2) - deltaBits);
            self.cmLocalMasks[GREEN_INDEX] = shl32(mask, srcBits - deltaBits);
            self.cmLocalMasks[BLUE_INDEX] = shl32(mask, -deltaBits);
            self.cmLocalMasks[ALPHA_INDEX] = 0;
        } else {
            let mask: u32 = shl32(1, srcBits).wrapping_sub(1);
            proof {
                lemma_shift_zero(mask);
            }
            self.cmLocalMasks[RED_INDEX] = shl32(mask, srcBits * 2);
            self.cmLocalMasks[GREEN_INDEX] = shl32(mask, srcBits);
            self.cmLocalMasks[BLUE_INDEX] = mask;
            self.cmLocalMasks[ALPHA_INDEX] = 0;
        }
        self.cmLocalShifts[RED_INDEX] = (deltaBits * 3) as i32;
        self.cmLocalShifts[GREEN_INDEX] = (deltaBits * 2) as i32;
        self.cmLocalShifts[BLUE_INDEX] = deltaBits as i32;
        self.cmLocalShifts[ALPHA_INDEX] = 0;
        assert(self.cmLocalMasks =~= set.cmLocalMasks);
        assert(self.cmLocalShifts =~= set.cmLocalShifts);
        self.cmShiftTable = CmTable::Local;
        self.cmMaskTable = CmTable::Local;
        self.cmFlags = self.cmFlags | (COLOR_MAP_PRESENT | COLOR_MAP_FIXED_PART);
    }

    /// Bits per color component of a depth that has components, 0 otherwise.
    pub open spec fn component_bits(depth: int) -> int {
        if depth == 16 {
            5
        } else if depth == 32 {
            8
        } else {
            0
        }
    }

    /// The source and the destination of the blit's color conversion, in bits
    /// per component, when there is one to set up: the source has more than 8
    /// bits, and so has the destination unless the color map says how many bits
    /// it is indexed by.
    pub open spec fn implied_conversion(self) -> Option<(int, int)> {
        if self.sourceDepth <= 8 || (self.cmBitsPerColor == 0 && self.destDepth <= 8) {
            None
        } else {
            Some(
                (
                    Self::component_bits(self.sourceDepth as int),
                    if self.cmBitsPerColor == 0 {
                        Self::component_bits(self.destDepth as int)
                    } else {
                        self.cmBitsPerColor as int
                    },
                ),
            )
        }
    }

    /// The registers with that conversion set up.
    pub open spec fn with_implied_masks(self) -> BitBlt {
        match self.implied_conversion() {
            None => self,
            Some((from, to)) => self.with_color_masks(from, to),
        }
    }

    /// Sets the conversion up that an old-style color map, or none, implies.
    pub fn setupColorMasks(&mut self)
        requires
            -0x800_0000_0000_0000 <= old(self).cmBitsPerColor <= 0x800_0000_0000_0000,
        ensures
            *final(self) == old(self).with_implied_masks(),
    {
        if self.sourceDepth <= 8 {
            return;
        }
        let mut bits: sqInt = 0;
        if self.sourceDepth == 16 {
            bits = 5;
        }
        if self.sourceDepth == 32 {
            bits = 8;
        }
        let targetBits: sqInt = if self.cmBitsPerColor == 0 {
            if self.destDepth <= 8 {
                return;
            }
            if self.destDepth == 16 {
                5
            } else if self.destDepth == 32 {
                8
            } else {
                0
            }
        } else {
            self.cmBitsPerColor
        };
        self.setupColorMasksFromto(bits, targetBits);
    }
}

/// The four bytes of a word.
pub(crate) proof fn lemma_channels(w: u32)
    by (bit_vector)
    ensures
        w & 0xFF <= 0xFF,
        (w >> 8) & 0xFF <= 0xFF,
        (w >> 16) & 0xFF <= 0xFF,
        (w >> 24) & 0xFF <= 0xFF,
        (w >> 0u32) & 0xFF == w & 0xFF,
        (((w >> 24) & 0xFF) << 24) | (((w >> 16) & 0xFF) << 16) | (((w >> 8) & 0xFF) << 8) | ((w
            >> 0u32) & 0xFF) == w,
        w >> 24 == (w >> 24) & 0xFF,
{
}

proof fn lemma_widening_masks(x: i64, y: i64, n: u64, d: u64, base: u64)
    by (bit_vector)
    requires
        1 <= n < 32,
        d == 32 - n,
        base == ((1u32 << (n as u32)) - 1) as u32,
    ensures
        (1u32 << (n as u32)) >= 1,
        ({
            let m0 = (base << d) as i64;
            let m1 = ((m0 as u64) << 32u64) as i64;
            let m2 = ((m1 as u64) << 32u64) as i64;
            &&& m2 == 0
            &&& 0 <= (x & m0) && (x & m0) <= 0xFFFF_FFFF
            &&& (y & m1) <= 0x7FFF_FFFF_0000_0000
        }),
{
}

/// Widening a pixel to 32 bits per component stays within a machine word.
proof fn lemma_widening_fits(p: u32, depth: int)
    requires
        1 <= depth < 32,
    ensures
        rgb_map_fits(p as sqInt, depth, 32),
{
    let d = 32 - depth;
    let px = p as sqInt;
    let base = shl_word(1, depth).wrapping_sub(1) as sqInt;
    lemma_widening_masks(
        shift_long(px, d),
        shift_long(shift_long(px, d), d),
        depth as u64,
        d as u64,
        ((1u32 << (depth as u32)) - 1) as u32 as u64,
    );
    let z = shift_long(shift_long(shift_long(px, d), d), d);
    lemma_and_bounds(z, 0);
}

proof fn lemma_shifted_and(v: i64, n: u64, m: i64)
    by (bit_vector)
    requires
        v >= 0i64,
        n < 64,
    ensures
        0 <= (((v as u64) >> n) as i64) && (((v as u64) >> n) as i64) <= v,
        0 <= (v & m) && (v & m) <= v,
{
}

/// Narrowing a pixel from 32 bits per component stays within a machine word.
proof fn lemma_narrowing_fits(v: u32, depth: int)
    requires
        1 <= depth < 32,
    ensures
        rgb_map_fits(v as sqInt, 32, depth),
{
    let d = 32 - depth;
    let mask = shl_word(1, depth).wrapping_sub(1) as sqInt;
    let v0 = v as sqInt;
    let v1 = shift_long(v0, -d);
    lemma_shifted_and(v0, d as u64, 0);
    let v2 = shift_long(v1, -d);
    lemma_shifted_and(v1, d as u64, mask);
    let v3 = shift_long(v2, -d);
    lemma_shifted_and(v2, d as u64, shift_long(mask, depth));
    lemma_shifted_and(v3, 0, shift_long(shift_long(mask, depth), depth));
}

} // verus!
