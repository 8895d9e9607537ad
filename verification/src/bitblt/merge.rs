//! The combination rules that read registers, and the choice among all rules.
use vstd::prelude::*;
use crate::prim::sqInt;
use crate::bitblt::memory::{with_word, Memory};
use crate::bitblt::state::{
    maskFor, shift_long, shl32, shl_word, shr32, shr_word, width_mask, BitBlt,
    COLOR_MAP_INDEXED_PART, COLOR_MAP_PRESENT,
};
use crate::bitblt::rules::{
    addWordwith, alphaBlendScaledwith, alphaBlendwith, alpha_blend, alpha_blend_scaled, channel,
    distance, field_mask, larger, lemma_next_field, map_fields, mixWords, mix_channel,
    moved_pixel, multiply_fields, pack4, partitionedANDtonBitsnPartitions,
    partitionedAddtonBitscomponentMaskcarryOverflowMask, partitionedMaxwithnBitsnPartitions,
    partitionedMinwithnBitsnPartitions, partitionedMulwithnBitsnPartitions,
    partitionedSubfromnBitsnPartitions, rgbMapfromto, rgb_map, rgb_map_fits, saturating_add,
    smaller, subWordwith, unless_equal, where_filled,
};

verus! {

broadcast use crate::bitblt::memory::group_memory;

impl BitBlt {
    /// The destination depth is one a form can have, and as many pixels as fit
    /// share a word.
    pub open spec fn dest_wf(self) -> bool {
        &&& 1 <= self.destDepth <= 32
        &&& self.destPPW == 32int / self.destDepth as int
    }

    // ---- Constant alpha ---------------------------------------------------

    /// One 16-bit pixel mixed with another, component by component.
    pub open spec fn mix16(s: u32, d: u32, a: u32) -> u32 {
        (mix_channel(s & 0x1F, d & 0x1F, a) & 0x1F) | ((mix_channel(
            (s >> 5) & 0x1F,
            (d >> 5) & 0x1F,
            a,
        ) & 0x1F) << 5) | ((mix_channel((s >> 10) & 0x1F, (d >> 10) & 0x1F, a) & 0x1F) << 10)
    }

    /// The 16-bit pixel that results from one source and one destination pixel:
    /// the destination outside the mask, and where a source pixel of 0 paints
    /// nothing; the mix of the two elsewhere.
    pub open spec fn const_pixel16(s: u32, d: u32, mask: u32, a: u32, paint: bool) -> u32 {
        if mask == 0 || (paint && s == 0) {
            d
        } else {
            Self::mix16(s, d, a)
        }
    }

    /// The source mixed in by the constant `sourceAlpha`, at 16 and 32 bits.
    pub open spec fn blend_const(self, mask: u32, s: u32, d: u32, paint: bool) -> u32 {
        let a = self.sourceAlpha as u32;
        if self.destDepth < 16 {
            d
        } else if self.destPPW == 1 {
            if paint && s == 0 {
                d
            } else {
                pack4(
                    mix_channel(channel(s, 24), channel(d, 24), a),
                    mix_channel(channel(s, 16), channel(d, 16), a),
                    mix_channel(channel(s, 8), channel(d, 8), a),
                    mix_channel(channel(s, 0), channel(d, 0), a),
                )
            }
        } else {
            Self::const_pixel16(s & 0xFFFF, d & 0xFFFF, mask & 0xFFFF, a, paint) | (
            Self::const_pixel16(s >> 16, d >> 16, mask >> 16, a, paint) << 16)
        }
    }

    fn mixPixel16(s: u32, d: u32, a: u32) -> (r: u32)
        requires
            a <= 255,
        ensures
            r == Self::mix16(s, d, a),
    {
        proof {
            lemma_components16(s);
            lemma_components16(d);
            lemma_mix5(s & 0x1F, d & 0x1F, a);
            lemma_mix5((s >> 5) & 0x1F, (d >> 5) & 0x1F, a);
            lemma_mix5((s >> 10) & 0x1F, (d >> 10) & 0x1F, a);
        }
        let un: u32 = 0xFF - a;
        let c0: u32 = (((s & 0x1F) * a + (d & 0x1F) * un + 0xFE) / 0xFF) & 0x1F;
        let c1: u32 = ((((s >> 5) & 0x1F) * a + ((d >> 5) & 0x1F) * un + 0xFE) / 0xFF) & 0x1F;
        let c2: u32 = ((((s >> 10) & 0x1F) * a + ((d >> 10) & 0x1F) * un + 0xFE) / 0xFF) & 0x1F;
        c0 | (c1 << 5) | (c2 << 10)
    }

    fn constPixel16(s: u32, d: u32, mask: u32, a: u32, paint: bool) -> (r: u32)
        requires
            a <= 255,
        ensures
            r == Self::const_pixel16(s, d, mask, a, paint),
    {
        if mask == 0 || (paint && s == 0) {
            d
        } else {
            Self::mixPixel16(s, d, a)
        }
    }

    /// Mixes the source in by the constant `sourceAlpha`. Destinations of fewer
    /// than 16 bits are left alone.
    pub fn alphaBlendConstwithpaintMode(
        &mut self,
        sourceWord: u32,
        destinationWord: u32,
        paintMode: bool,
    ) -> (r: u32)
        requires
            old(self).dest_wf(),
            old(self).destDepth < 16 || old(self).sourceAlpha as u32 <= 0xFF,
        ensures
            r == old(self).blend_const(
                old(self).destMask,
                sourceWord,
                destinationWord,
                paintMode,
            ),
            *final(self) == *old(self),
    {
        if self.destDepth < 16 {
            return destinationWord;
        }
        let sourceAlpha: u32 = self.sourceAlpha as u32;
        if self.destPPW == 1 {
            if paintMode && sourceWord == 0 {
                return destinationWord;
            }
            mixWords(sourceWord, destinationWord, sourceAlpha, false)
        } else {
            let mask: u32 = self.destMask;
            let low: u32 = Self::constPixel16(
                sourceWord & 0xFFFF,
                destinationWord & 0xFFFF,
                mask & 0xFFFF,
                sourceAlpha,
                paintMode,
            );
            let high: u32 = Self::constPixel16(
                sourceWord >> 16,
                destinationWord >> 16,
                mask >> 16,
                sourceAlpha,
                paintMode,
            );
            low | (high << 16)
        }
    }

    /// Rule 30: the source mixed in by a constant alpha.
    pub fn alphaBlendConstwith(&mut self, sourceWord: u32, destinationWord: u32) -> (r: u32)
        requires
            old(self).dest_wf(),
            old(self).destDepth < 16 || old(self).sourceAlpha as u32 <= 0xFF,
        ensures
            r == old(self).blend_const(old(self).destMask, sourceWord, destinationWord, false),
            *final(self) == *old(self),
    {
        self.alphaBlendConstwithpaintMode(sourceWord, destinationWord, false)
    }

    /// Rule 31: as rule 30, but a source pixel of 0 paints nothing.
    pub fn alphaPaintConstwith(&mut self, sourceWord: u32, destinationWord: u32) -> (r: u32)
        requires
            old(self).dest_wf(),
            old(self).destDepth < 16 || old(self).sourceAlpha as u32 <= 0xFF,
        ensures
            r == (if sourceWord == 0 {
                destinationWord
            } else {
                old(self).blend_const(old(self).destMask, sourceWord, destinationWord, true)
            }),
            *final(self) == *old(self),
    {
        if sourceWord == 0 {
            return destinationWord;
        }
        self.alphaBlendConstwithpaintMode(sourceWord, destinationWord, true)
    }
}

impl BitBlt {
    // ---- Component arithmetic ---------------------------------------------

    /// The packed components of the destination: whole pixels below 16 bits,
    /// three 5-bit components in each half at 16, four bytes above.
    pub open spec fn by_components(
        self,
        f: spec_fn(u32, u32) -> u32,
        s: u32,
        d: u32,
    ) -> u32 {
        if self.destDepth < 16 {
            map_fields(f, s, d, self.destDepth as int, self.destPPW as int)
        } else if self.destDepth == 16 {
            map_fields(f, s, d, 5, 3).wrapping_add(map_fields(f, s >> 16, d >> 16, 5, 3) << 16)
        } else {
            map_fields(f, s, d, 8, 4)
        }
    }

    /// Saturating addition of the packed components. The unused bit of a 16-bit
    /// pixel is dropped.
    pub open spec fn add_components(self, s: u32, d: u32) -> u32 {
        let n = self.destDepth as int;
        if n < 16 {
            let component = shl_word(1, n).wrapping_sub(1);
            saturating_add(s, d, n, component, shl_word(0xFFFF_FFFFu32 / component, n - 1))
        } else if n == 16 {
            saturating_add(s & 0x7FFF_7FFF, d & 0x7FFF_7FFF, 5, 0x1F, 0x4210_4210)
        } else {
            saturating_add(s, d, 8, 0xFF, 0x8080_8080)
        }
    }

    /// The packed components multiplied as fractions.
    pub open spec fn multiply_components(self, s: u32, d: u32) -> u32 {
        if self.destDepth < 16 {
            multiply_fields(s, d, self.destDepth as int, self.destPPW as int)
        } else if self.destDepth == 16 {
            multiply_fields(s, d, 5, 3).wrapping_add(multiply_fields(s >> 16, d >> 16, 5, 3) << 16)
        } else {
            multiply_fields(s, d, 8, 4)
        }
    }

    /// Rule 20: components added, each held to its maximum.
    pub fn rgbAddwith(&mut self, sourceWord: u32, destinationWord: u32) -> (r: u32)
        requires
            old(self).dest_wf(),
        ensures
            r == old(self).add_components(sourceWord, destinationWord),
            *final(self) == *old(self),
    {
        if self.destDepth < 16 {
            // each pixel by itself
            proof {
                let n = self.destDepth as u32;
                assert(1 <= n < 16 ==> 1 < (1u32 << n)) by (bit_vector);
            }
            let componentMask: u32 = shl32(1, self.destDepth as sqInt).wrapping_sub(1);
            let carryOverflowMask: u32 = shl32(
                0xFFFF_FFFFu32 / componentMask,
                self.destDepth as sqInt - 1,
            );
            partitionedAddtonBitscomponentMaskcarryOverflowMask(
                sourceWord,
                destinationWord,
                self.destDepth as sqInt,
                componentMask,
                carryOverflowMask,
            )
        } else if self.destDepth == 16 {
            // three components of each pixel
            partitionedAddtonBitscomponentMaskcarryOverflowMask(
                sourceWord & 2147450879,
                destinationWord & 2147450879,
                5,
                0x1F,
                1108361744,
            )
        } else {
            // four components
            partitionedAddtonBitscomponentMaskcarryOverflowMask(
                sourceWord,
                destinationWord,
                8,
                0xFF,
                2155905152,
            )
        }
    }

    /// Rule 21: the absolute difference of the components.
    pub fn rgbSubwith(&mut self, sourceWord: u32, destinationWord: u32) -> (r: u32)
        requires
            old(self).dest_wf(),
        ensures
            r == old(self).by_components(distance(), sourceWord, destinationWord),
            *final(self) == *old(self),
    {
        if self.destDepth < 16 {
            partitionedSubfromnBitsnPartitions(
                sourceWord,
                destinationWord,
                self.destDepth as sqInt,
                self.destPPW,
            )
        } else if self.destDepth == 16 {
            let low: u32 = partitionedSubfromnBitsnPartitions(sourceWord, destinationWord, 5, 3);
            let high: u32 = partitionedSubfromnBitsnPartitions(
                sourceWord >> 16,
                destinationWord >> 16,
                5,
                3,
            );
            low.wrapping_add(high << 16)
        } else {
            partitionedSubfromnBitsnPartitions(sourceWord, destinationWord, 8, 4)
        }
    }

    /// Rule 27: the larger of the components.
    pub fn rgbMaxwith(&mut self, sourceWord: u32, destinationWord: u32) -> (r: u32)
        requires
            old(self).dest_wf(),
        ensures
            r == old(self).by_components(larger(), sourceWord, destinationWord),
            *final(self) == *old(self),
    {
        if self.destDepth < 16 {
            partitionedMaxwithnBitsnPartitions(
                sourceWord,
                destinationWord,
                self.destDepth as sqInt,
                self.destPPW,
            )
        } else if self.destDepth == 16 {
            let low: u32 = partitionedMaxwithnBitsnPartitions(sourceWord, destinationWord, 5, 3);
            let high: u32 = partitionedMaxwithnBitsnPartitions(
                sourceWord >> 16,
                destinationWord >> 16,
                5,
                3,
            );
            low.wrapping_add(high << 16)
        } else {
            partitionedMaxwithnBitsnPartitions(sourceWord, destinationWord, 8, 4)
        }
    }

    /// Rule 28: the smaller of the components.
    pub fn rgbMinwith(&mut self, sourceWord: u32, destinationWord: u32) -> (r: u32)
        requires
            old(self).dest_wf(),
        ensures
            r == old(self).by_components(smaller(), sourceWord, destinationWord),
            *final(self) == *old(self),
    {
        if self.destDepth < 16 {
            partitionedMinwithnBitsnPartitions(
                sourceWord,
                destinationWord,
                self.destDepth as sqInt,
                self.destPPW,
            )
        } else if self.destDepth == 16 {
            let low: u32 = partitionedMinwithnBitsnPartitions(sourceWord, destinationWord, 5, 3);
            let high: u32 = partitionedMinwithnBitsnPartitions(
                sourceWord >> 16,
                destinationWord >> 16,
                5,
                3,
            );
            low.wrapping_add(high << 16)
        } else {
            partitionedMinwithnBitsnPartitions(sourceWord, destinationWord, 8, 4)
        }
    }

    /// Rule 29: the smaller of the components, the source inverted first.
    pub fn rgbMinInvertwith(&mut self, wordToInvert: u32, destinationWord: u32) -> (r: u32)
        requires
            old(self).dest_wf(),
        ensures
            r == old(self).by_components(smaller(), !wordToInvert, destinationWord),
            *final(self) == *old(self),
    {
        self.rgbMinwith(!wordToInvert, destinationWord)
    }

    /// Rule 37: the components multiplied as fractions.
    pub fn rgbMulwith(&mut self, sourceWord: u32, destinationWord: u32) -> (r: u32)
        requires
            old(self).dest_wf(),
        ensures
            r == old(self).multiply_components(sourceWord, destinationWord),
            *final(self) == *old(self),
    {
        if self.destDepth < 16 {
            partitionedMulwithnBitsnPartitions(
                sourceWord,
                destinationWord,
                self.destDepth as sqInt,
                self.destPPW,
            )
        } else if self.destDepth == 16 {
            let low: u32 = partitionedMulwithnBitsnPartitions(sourceWord, destinationWord, 5, 3);
            let high: u32 = partitionedMulwithnBitsnPartitions(
                sourceWord >> 16,
                destinationWord >> 16,
                5,
                3,
            );
            low.wrapping_add(high << 16)
        } else {
            partitionedMulwithnBitsnPartitions(sourceWord, destinationWord, 8, 4)
        }
    }

    // ---- Counting differences ---------------------------------------------

    /// How many pixels of the word are not 0.
    pub open spec fn nonzero_pixels(w: u32, depth: int) -> int
        decreases w,
    {
        if w == 0 || !(1 <= depth <= 32) {
            0
        } else {
            proof {
                let n = depth as u32;
                assert(w > 0 && 1 <= n && n < 32 ==> w >> n < w) by (bit_vector);
            }
            (if w & width_mask(depth) != 0 {
                1int
            } else {
                0
            }) + Self::nonzero_pixels(shr_word(w, depth), depth)
        }
    }

    /// The sum of the three low components of a word.
    pub open spec fn component_sum(w: u32, bits: int) -> int {
        let mask = width_mask(bits);
        (w & mask) + (shr_word(w, bits) & mask) + (shr_word(shr_word(w, bits), bits) & mask)
    }

    /// What rule 22 counts for two words: differing pixels, or the summed
    /// differences of the color components.
    pub open spec fn word_difference(self, s: u32, d: u32) -> int {
        if self.destDepth < 16 {
            Self::nonzero_pixels(s ^ d, self.destDepth as int)
        } else if self.destDepth == 16 {
            Self::component_sum(map_fields(distance(), s, d, 5, 3), 5) + Self::component_sum(
                map_fields(distance(), s >> 16, d >> 16, 5, 3),
                5,
            )
        } else {
            Self::component_sum(map_fields(distance(), s, d, 8, 3), 8)
        }
    }

    /// The difference of one pixel from another.
    pub open spec fn pixel_difference(self, s: u32, d: u32) -> int {
        if self.destDepth < 16 {
            if s == d {
                0
            } else {
                1
            }
        } else if self.destDepth == 16 {
            Self::component_sum(map_fields(distance(), s, d, 5, 3), 5)
        } else {
            Self::component_sum(map_fields(distance(), s, d, 8, 3), 8)
        }
    }

    /// The summed difference of the `n` low pixels of two words, of those
    /// pixels that are in the mask.
    pub open spec fn masked_difference(self, mask: u32, s: u32, d: u32, n: int) -> int
        decreases n,
    {
        if n <= 0 {
            0
        } else {
            let pixel = width_mask(self.destDepth as int);
            let depth = self.destDepth as int;
            (if mask & pixel != 0 {
                self.pixel_difference(s & pixel, d & pixel)
            } else {
                0
            }) + self.masked_difference(
                shr_word(mask, depth),
                shr_word(s, depth),
                shr_word(d, depth),
                n - 1,
            )
        }
    }

    /// A pixel counts for 765 at most, and for 93 at 16 bits.
    pub(crate) proof fn lemma_component_sum_bound(w: u32, bits: int)
        requires
            bits == 5 || bits == 8,
        ensures
            0 <= Self::component_sum(w, bits) <= 765,
            bits == 5 ==> Self::component_sum(w, bits) <= 93,
    {
        lemma_small_mask(w);
        lemma_small_mask(shr_word(w, bits));
        lemma_small_mask(shr_word(shr_word(w, bits), bits));
    }

    proof fn lemma_nonzero_bound(w: u32, depth: int, room: u32)
        requires
            1 <= depth <= 32,
            room <= 32,
            room < 32 ==> w < (1u32 << room),
        ensures
            0 <= Self::nonzero_pixels(w, depth) <= room,
        decreases w,
    {
        if w != 0 {
            let n = depth as u32;
            if room == 0 {
                lemma_shift_zero(1);
            } else if n < 32 {
                let less = (room - 1) as u32;
                assert((w > 0 && 1 <= n && n < 32 ==> w >> n < w) && (1 <= n && n < 32 && 1 <= room
                    && room <= 32 && less == room - 1 && (room < 32 ==> w < (1u32 << room))
                    ==> (w >> n) < (1u32 << less))) by (bit_vector);
                Self::lemma_nonzero_bound(shr_word(w, depth), depth, less);
            } else {
                assert(Self::nonzero_pixels(shr_word(w, depth), depth) == 0);
            }
        }
    }

    proof fn lemma_masked_difference_bound(self, mask: u32, s: u32, d: u32, n: int)
        requires
            0 <= n,
        ensures
            0 <= self.masked_difference(mask, s, d, n) <= 765 * n,
            self.destDepth == 16 ==> self.masked_difference(mask, s, d, n) <= 93 * n,
            self.destDepth < 16 ==> self.masked_difference(mask, s, d, n) <= n,
        decreases n,
    {
        if n > 0 {
            let pixel = width_mask(self.destDepth as int);
            let depth = self.destDepth as int;
            Self::lemma_component_sum_bound(
                map_fields(distance(), s & pixel, d & pixel, 5, 3),
                5,
            );
            Self::lemma_component_sum_bound(
                map_fields(distance(), s & pixel, d & pixel, 8, 3),
                8,
            );
            self.lemma_masked_difference_bound(
                shr_word(mask, depth),
                shr_word(s, depth),
                shr_word(d, depth),
                n - 1,
            );
        }
    }

    /// The most that one word can add to `bitCount`.
    pub open spec fn count_limit() -> int {
        765
    }

    /// What one word adds is within the limit.
    proof fn lemma_count_limit(self, mask: u32, s: u32, d: u32)
        requires
            self.dest_wf(),
        ensures
            0 <= self.word_difference(s, d) <= Self::count_limit(),
            0 <= self.masked_difference(mask, s, d, self.destPPW as int) <= Self::count_limit(),
    {
        lemma_ppw_bound(self);
        self.lemma_masked_difference_bound(mask, s, d, self.destPPW as int);
        Self::lemma_component_sum_bound(map_fields(distance(), s, d, 5, 3), 5);
        Self::lemma_component_sum_bound(map_fields(distance(), s >> 16, d >> 16, 5, 3), 5);
        Self::lemma_component_sum_bound(map_fields(distance(), s, d, 8, 3), 8);
        Self::lemma_nonzero_bound(s ^ d, self.destDepth as int, 32);
        if self.destDepth > 16 {
            assert(self.destPPW == 1) by (nonlinear_arith)
                requires
                    1 <= self.destPPW,
                    self.destDepth > 16,
                    self.destPPW * self.destDepth <= 32,
            ;
        } else if self.destDepth == 16 {
            assert(self.destPPW <= 2);
        }
    }

    fn componentSum5(w: u32) -> (r: sqInt)
        ensures
            r == Self::component_sum(w, 5),
            0 <= r <= 93,
    {
        proof {
            Self::lemma_component_sum_bound(w, 5);
            lemma_shr_twice(w, 5, 5);
        }
        (w & 0x1F) as sqInt + ((w >> 5) & 0x1F) as sqInt + ((w >> 10) & 0x1F) as sqInt
    }

    fn componentSum8(w: u32) -> (r: sqInt)
        ensures
            r == Self::component_sum(w, 8),
            0 <= r <= 765,
    {
        proof {
            Self::lemma_component_sum_bound(w, 8);
            lemma_shr_twice(w, 8, 8);
        }
        (w & 0xFF) as sqInt + ((w >> 8) & 0xFF) as sqInt + ((w >> 16) & 0xFF) as sqInt
    }

    /// Rule 22: counts differences into `bitCount` and leaves the destination
    /// alone.
    pub fn OLDrgbDiffwith(&mut self, sourceWord: u32, destinationWord: u32) -> (r: u32)
        requires
            old(self).dest_wf(),
            old(self).bitCount + old(self).word_difference(sourceWord, destinationWord)
                <= sqInt::MAX,
        ensures
            r == destinationWord,
            *final(self) == (BitBlt {
                bitCount: (old(self).bitCount + old(self).word_difference(
                    sourceWord,
                    destinationWord,
                )) as sqInt,
                ..*old(self)
            }),
    {
        if self.destDepth < 16 {
            let mut diff: u32 = sourceWord ^ destinationWord;
            let depth: sqInt = self.destDepth as sqInt;
            let pixMask: u32 = maskFor(depth);
            let mut count: sqInt = 0;
            let ghost total = Self::nonzero_pixels(diff, depth as int);
            proof {
                Self::lemma_nonzero_bound(diff, depth as int, 32);
            }
            while diff != 0
                invariant
                    1 <= depth < 16,
                    pixMask == width_mask(depth as int),
                    0 <= count,
                    0 <= Self::nonzero_pixels(diff, depth as int),
                    count + Self::nonzero_pixels(diff, depth as int) == total,
                    total <= 32,
                decreases diff,
            {
                proof {
                    let n = depth as u32;
                    assert(diff > 0 && 1 <= n && n < 32 ==> diff >> n < diff) by (bit_vector);
                    Self::lemma_nonzero_bound(shr_word(diff, depth as int), depth as int, 32);
                }
                if diff & pixMask != 0 {
                    count = count + 1;
                }
                diff = shr32(diff, depth);
            }
            self.bitCount = self.bitCount + count;
            return destinationWord;
        }
        if self.destDepth == 16 {
            let low: u32 = partitionedSubfromnBitsnPartitions(sourceWord, destinationWord, 5, 3);
            let high: u32 = partitionedSubfromnBitsnPartitions(
                sourceWord >> 16,
                destinationWord >> 16,
                5,
                3,
            );
            self.bitCount = self.bitCount + Self::componentSum5(low) + Self::componentSum5(high);
        } else {
            let diff: u32 = partitionedSubfromnBitsnPartitions(sourceWord, destinationWord, 8, 3);
            self.bitCount = self.bitCount + Self::componentSum8(diff);
        }
        destinationWord
    }

    /// Rule 32: as rule 22, but only for pixels inside the destination mask.
    pub fn rgbDiffwith(&mut self, sourceWord: u32, destinationWord: u32) -> (r: u32)
        requires
            old(self).dest_wf(),
            old(self).bitCount + old(self).masked_difference(
                old(self).destMask,
                sourceWord,
                destinationWord,
                old(self).destPPW as int,
            ) <= sqInt::MAX,
        ensures
            r == destinationWord,
            *final(self) == (BitBlt {
                bitCount: (old(self).bitCount + old(self).masked_difference(
                    old(self).destMask,
                    sourceWord,
                    destinationWord,
                    old(self).destPPW as int,
                )) as sqInt,
                ..*old(self)
            }),
    {
        let depth: sqInt = self.destDepth as sqInt;
        let pixMask: u32 = maskFor(depth);
        let mut maskShifted: u32 = self.destMask;
        let mut destShifted: u32 = destinationWord;
        let mut sourceShifted: u32 = sourceWord;
        let mut count: sqInt = 0;
        let mut left: sqInt = self.destPPW;
        let ghost total = self.masked_difference(
            maskShifted,
            sourceShifted,
            destShifted,
            left as int,
        );
        proof {
            lemma_ppw_bound(*self);
            self.lemma_masked_difference_bound(
                maskShifted,
                sourceShifted,
                destShifted,
                left as int,
            );
        }
        while left > 0
            invariant
                1 <= self.destDepth <= 32,
                depth == self.destDepth,
                pixMask == width_mask(depth as int),
                0 <= left <= 32,
                0 <= count,
                count + self.masked_difference(
                    maskShifted,
                    sourceShifted,
                    destShifted,
                    left as int,
                ) == total,
                0 <= total <= 765 * 32,
            decreases left,
        {
            proof {
                self.lemma_masked_difference_bound(
                    shr_word(maskShifted, depth as int),
                    shr_word(sourceShifted, depth as int),
                    shr_word(destShifted, depth as int),
                    left - 1,
                );
            }
            if maskShifted & pixMask != 0 {
                let destPixVal: u32 = destShifted & pixMask;
                let sourcePixVal: u32 = sourceShifted & pixMask;
                let diff: sqInt = if self.destDepth < 16 {
                    if sourcePixVal == destPixVal {
                        0
                    } else {
                        1
                    }
                } else if self.destDepth == 16 {
                    Self::componentSum5(
                        partitionedSubfromnBitsnPartitions(sourcePixVal, destPixVal, 5, 3),
                    )
                } else {
                    Self::componentSum8(
                        partitionedSubfromnBitsnPartitions(sourcePixVal, destPixVal, 8, 3),
                    )
                };
                count = count + diff;
            }
            maskShifted = shr32(maskShifted, depth);
            sourceShifted = shr32(sourceShifted, depth);
            destShifted = shr32(destShifted, depth);
            left = left - 1;
        }
        self.bitCount = self.bitCount + count;
        destinationWord
    }

    // ---- Whole pixels -----------------------------------------------------

    /// Rule 39 of two words: destination pixels equal to the source pixel
    /// become 0.
    pub open spec fn clear_equal(self, s: u32, d: u32) -> u32 {
        if self.destDepth == 32 {
            if s == d {
                0
            } else {
                d
            }
        } else {
            map_fields(unless_equal(), s, d, self.destDepth as int, self.destPPW as int)
        }
    }

    /// Rule 39: clears the destination pixels that equal the source pixel.
    pub fn pixClearwith(&mut self, sourceWord: u32, destinationWord: u32) -> (r: u32)
        requires
            old(self).dest_wf(),
        ensures
            r == old(self).clear_equal(sourceWord, destinationWord),
            *final(self) == *old(self),
    {
        if self.destDepth == 32 {
            return if sourceWord == destinationWord {
                0
            } else {
                destinationWord
            };
        }
        let nBits: sqInt = self.destDepth as sqInt;
        let mut mask: u32 = maskFor(nBits);
        let mut result: u32 = 0;
        let mut i: sqInt = 0;
        proof {
            lemma_ppw_bound(*self);
            lemma_next_field(nBits as int, 0);
        }
        while i < self.destPPW
            invariant
                *self == *old(self),
                1 <= nBits < 32,
                nBits == self.destDepth,
                0 <= i <= self.destPPW,
                mask == field_mask(nBits as int, i as int),
                result == map_fields(
                    unless_equal(),
                    sourceWord,
                    destinationWord,
                    nBits as int,
                    i as int,
                ),
            decreases self.destPPW - i,
        {
            let mut pv: u32 = destinationWord & mask;
            if sourceWord & mask == pv {
                pv = 0;
            }
            result = result | pv;
            proof {
                lemma_next_field(nBits as int, i as int);
            }
            mask = shl32(mask, nBits);
            i = i + 1;
        }
        result
    }

    /// Rule 26: keeps the destination where the source is 0.
    pub fn pixMaskwith(&mut self, sourceWord: u32, destinationWord: u32) -> (r: u32)
        requires
            old(self).dest_wf(),
        ensures
            r == where_filled(
                !sourceWord,
                destinationWord,
                old(self).destDepth as int,
                old(self).destPPW as int,
            ),
            *final(self) == *old(self),
    {
        partitionedANDtonBitsnPartitions(
            !sourceWord,
            destinationWord,
            self.destDepth as sqInt,
            self.destPPW,
        )
    }

    /// Rule 25 of two words: the source, over the destination where it is 0.
    pub open spec fn paint(self, s: u32, d: u32) -> u32 {
        if s == 0 {
            d
        } else {
            s | where_filled(!s, d, self.destDepth as int, self.destPPW as int)
        }
    }

    /// Rule 25: paints the source, source pixels of 0 being transparent.
    pub fn pixPaintwith(&mut self, sourceWord: u32, destinationWord: u32) -> (r: u32)
        requires
            old(self).dest_wf(),
        ensures
            r == old(self).paint(sourceWord, destinationWord),
            *final(self) == *old(self),
    {
        if sourceWord == 0 {
            return destinationWord;
        }
        sourceWord | partitionedANDtonBitsnPartitions(
            !sourceWord,
            destinationWord,
            self.destDepth as sqInt,
            self.destPPW,
        )
    }

    /// The pixels `i` from each end of a word of `ppw` pixels, exchanged.
    pub open spec fn swapped_pair(w: u32, depth: int, ppw: int, i: int) -> u32 {
        let pixel = shl_word(1, depth).wrapping_sub(1);
        let low = shl_word(pixel, i * depth);
        let high = shr_word(shl_word(pixel, (ppw - 1) * depth), i * depth);
        let by = 32 - depth - 2 * i * depth;
        shl_word(w & low, by) | shr_word(w & high, by)
    }

    /// The first `n` such pairs.
    pub open spec fn swapped_pairs(w: u32, depth: int, ppw: int, n: int) -> u32
        decreases n,
    {
        if n <= 0 {
            0
        } else {
            Self::swapped_pairs(w, depth, ppw, n - 1) | Self::swapped_pair(w, depth, ppw, n - 1)
        }
    }

    /// Rule 38 of a word: its pixels in the opposite order.
    pub open spec fn reversed_pixels(self, w: u32) -> u32 {
        if self.destPPW == 1 {
            w
        } else {
            Self::swapped_pairs(
                w,
                self.destDepth as int,
                self.destPPW as int,
                self.destPPW as int / 2,
            )
        }
    }

    /// Rule 38: reverses the order of the pixels in the destination word.
    pub fn pixSwapwith(&mut self, _sourceWord: u32, destWord: u32) -> (r: u32)
        requires
            old(self).dest_wf(),
        ensures
            r == old(self).reversed_pixels(destWord),
            *final(self) == *old(self),
    {
        if self.destPPW == 1 {
            return destWord;
        }
        let destDepth: sqInt = self.destDepth as sqInt;
        let ppw: sqInt = self.destPPW;
        let mut result: u32 = 0;
        proof {
            lemma_ppw_bound(*self);
            assert(0 <= (ppw - 1) * destDepth <= 32) by (nonlinear_arith)
                requires
                    1 <= ppw,
                    1 <= destDepth,
                    ppw * destDepth <= 32,
            ;
        }
        let pixel: u32 = shl32(1, destDepth).wrapping_sub(1);
        let mut lowMask: u32 = pixel;
        let mut highMask: u32 = shl32(pixel, (ppw - 1) * destDepth);
        let ghost top: u32 = highMask;
        let mut shift: sqInt = 32 - destDepth;
        let half: sqInt = ppw / 2;
        let mut i: sqInt = 0;
        proof {
            lemma_shift_zero(pixel);
            lemma_shift_zero(top);
            assert(0 * destDepth == 0);
        }
        while i < half
            invariant
                *self == *old(self),
                1 <= destDepth < 32,
                2 <= ppw <= 32,
                half == ppw / 2,
                0 <= i <= half,
                pixel == shl_word(1, destDepth as int).wrapping_sub(1),
                top == shl_word(pixel, (ppw - 1) * destDepth),
                lowMask == shl_word(pixel, i * destDepth),
                highMask == shr_word(top, i * destDepth),
                shift == 32 - destDepth - 2 * i * destDepth,
                -2000 <= shift <= 32,
                result == Self::swapped_pairs(destWord, destDepth as int, ppw as int, i as int),
            decreases half - i,
        {
            proof {
                assert(0 <= i * destDepth <= 16 * 32 && (i + 1) * destDepth == i * destDepth
                    + destDepth && 2 * (i + 1) * destDepth == 2 * i * destDepth + destDepth * 2
                    && 2 * i * destDepth == 2 * (i * destDepth) && 2 * (i + 1) * destDepth == 2 * ((
                i + 1) * destDepth)) by (nonlinear_arith)
                    requires
                        0 <= i <= 16,
                        1 <= destDepth <= 32,
                ;
                lemma_shl_steps(pixel, i * destDepth, destDepth as int);
                lemma_shr_steps(top, i * destDepth, destDepth as int);
            }
            result = result | (shl32(destWord & lowMask, shift) | shr32(
                destWord & highMask,
                shift,
            ));
            lowMask = shl32(lowMask, destDepth);
            highMask = shr32(highMask, destDepth);
            shift = shift - destDepth * 2;
            i = i + 1;
        }
        result
    }

    /// Rule 40 of two words: a pixel without alpha takes the source's.
    pub open spec fn fix_alpha(self, s: u32, d: u32) -> u32 {
        if self.destDepth != 32 || d == 0 || d & 0xFF00_0000 != 0 {
            d
        } else {
            d | (s & 0xFF00_0000)
        }
    }

    /// Rule 40: fills an alpha of 0 from the source.
    pub fn fixAlphawith(&mut self, sourceWord: u32, destinationWord: u32) -> (r: u32)
        ensures
            r == old(self).fix_alpha(sourceWord, destinationWord),
            *final(self) == *old(self),
    {
        if self.destDepth != 32 {
            return destinationWord;
        }
        if destinationWord == 0 {
            return 0;
        }
        if destinationWord & 0xFF000000 != 0 {
            return destinationWord;
        }
        destinationWord | (sourceWord & 0xFF000000)
    }
}

/// At least one and at most 32 pixels share a word.
pub(crate) proof fn lemma_ppw_bound(bb: BitBlt)
    requires
        bb.dest_wf(),
    ensures
        1 <= bb.destPPW <= 32,
        bb.destPPW * bb.destDepth <= 32,
        bb.destDepth == 32 ==> bb.destPPW == 1,
        bb.destPPW >= 2 ==> bb.destDepth <= 16,
{
    let d = bb.destDepth as int;
    assert(1 <= 32int / d <= 32 && (32int / d) * d <= 32 && (d == 32 ==> 32int / d == 1) && (32int
        / d >= 2 ==> d <= 16)) by (nonlinear_arith)
        requires
            1 <= d <= 32,
    ;
}

/// A shift by 0 changes nothing.
pub(crate) proof fn lemma_shift_zero(w: u32)
    ensures
        shl_word(w, 0) == w,
        shr_word(w, 0) == w,
{
    lemma_shift_pairs(w, 0, 0);
}

proof fn lemma_small_mask(w: u32)
    by (bit_vector)
    ensures
        w & 0x1F <= 31,
        w & 0xFF <= 255,
{
}

/// Two shifts the same way are one.
pub(crate) proof fn lemma_shift_pairs(w: u32, a: u32, b: u32)
    by (bit_vector)
    requires
        a < 32,
        b < 32,
    ensures
        a + b < 32 ==> (w << a) << b == w << ((a + b) as u32),
        a + b >= 32 ==> (w << a) << b == 0,
        a + b < 32 ==> (w >> a) >> b == w >> ((a + b) as u32),
        a + b >= 32 ==> (w >> a) >> b == 0,
        0u32 << b == 0,
        0u32 >> b == 0,
        w << 0u32 == w,
        w >> 0u32 == w,
{
}

/// Two left shifts are one.
pub(crate) proof fn lemma_shl_steps(w: u32, a: int, b: int)
    requires
        0 <= a,
        0 <= b,
    ensures
        shl_word(shl_word(w, a), b) == shl_word(w, a + b),
{
    if a < 32 && b < 32 {
        lemma_shift_pairs(w, a as u32, b as u32);
    } else if b < 32 {
        lemma_shift_pairs(w, 0, b as u32);
    }
}

/// Two right shifts are one.
pub(crate) proof fn lemma_shr_steps(w: u32, a: int, b: int)
    requires
        0 <= a,
        0 <= b,
    ensures
        shr_word(shr_word(w, a), b) == shr_word(w, a + b),
{
    if a < 32 && b < 32 {
        lemma_shift_pairs(w, a as u32, b as u32);
    } else if b < 32 {
        lemma_shift_pairs(w, 0, b as u32);
    }
}

proof fn lemma_shr_twice(w: u32, a: int, b: int)
    requires
        0 <= a,
        0 <= b,
        a + b < 32,
    ensures
        shr_word(shr_word(w, a), b) == w >> ((a + b) as u32),
{
    lemma_shr_steps(w, a, b);
}

impl BitBlt {
    // ---- Tallying into the color map --------------------------------------

    /// A color map is there to be indexed.
    pub open spec fn has_indexed_map(self) -> bool {
        self.cmFlags & (COLOR_MAP_PRESENT | COLOR_MAP_INDEXED_PART) == (COLOR_MAP_PRESENT
            | COLOR_MAP_INDEXED_PART)
    }

    /// The memory after the color map entry for `index` has gone up by one.
    pub open spec fn tally(self, m: Seq<u8>, index: sqInt) -> Seq<u8> {
        with_word(m, self.lookup_addr(index), self.lookup(m, index).wrapping_add(1))
    }

    /// The color map index of a destination pixel.
    pub open spec fn tally_index(self, pixel: u32) -> sqInt {
        if self.destDepth < 16 {
            pixel as sqInt
        } else if self.destDepth == 16 {
            rgb_map(pixel as sqInt, 5, self.cmBitsPerColor as int) as sqInt
        } else {
            rgb_map(pixel as sqInt, 8, self.cmBitsPerColor as int) as sqInt
        }
    }

    /// The `n` low pixels of a word tallied, `index_mask` applied to each.
    pub open spec fn tally_plain(self, m: Seq<u8>, w: u32, index_mask: sqInt, n: int) -> Seq<u8>
        decreases n,
    {
        if n <= 0 {
            m
        } else {
            self.tally_plain(
                self.tally(m, w as sqInt & index_mask),
                shr_word(w, self.destDepth as int),
                index_mask,
                n - 1,
            )
        }
    }

    /// The `n` low pixels of a word tallied, of those that are in the mask.
    pub open spec fn tally_masked(self, m: Seq<u8>, mask: u32, w: u32, n: int) -> Seq<u8>
        decreases n,
    {
        if n <= 0 {
            m
        } else {
            let pixel = width_mask(self.destDepth as int);
            let depth = self.destDepth as int;
            self.tally_masked(
                if mask & pixel != 0 {
                    self.tally(m, self.tally_index(w & pixel))
                } else {
                    m
                },
                shr_word(mask, depth),
                shr_word(w, depth),
                n - 1,
            )
        }
    }

    /// What rule 23 makes of the memory.
    pub open spec fn tally_all(self, m: Seq<u8>, d: u32) -> Seq<u8> {
        if !self.has_indexed_map() {
            m
        } else if self.destDepth < 16 {
            self.tally_plain(
                m,
                d,
                width_mask(self.destDepth as int) as sqInt & self.cmMask,
                self.destPPW as int,
            )
        } else if self.destDepth == 16 {
            self.tally(self.tally(m, self.tally_index(d & 0xFFFF)), self.tally_index(d >> 16))
        } else {
            self.tally(m, self.tally_index(d))
        }
    }

    /// What rule 33 makes of the memory.
    pub open spec fn tally_inside(self, mask: u32, m: Seq<u8>, d: u32) -> Seq<u8> {
        if !self.has_indexed_map() {
            m
        } else {
            self.tally_masked(m, mask, d, self.destPPW as int)
        }
    }

    /// Tallying has a color map to count in.
    pub open spec fn tally_ok(self, size: nat) -> bool {
        self.has_indexed_map() ==> {
            &&& self.lookup_ok(size)
            &&& self.destDepth >= 16 ==> 0 <= self.cmBitsPerColor <= 8
        }
    }

    fn tallyAt(&self, mem: &mut Memory, index: sqInt)
        requires
            self.lookup_ok(old(mem)@.len()),
        ensures
            final(mem)@ == self.tally(old(mem)@, index),
            final(mem)@.len() == old(mem)@.len(),
    {
        let value: u32 = self.cmLookupAt(mem, index).wrapping_add(1);
        self.cmLookupAtPut(mem, index, value);
    }

    /// Rule 23: counts the destination pixels in the color map.
    pub fn OLDtallyIntoMapwith(
        &mut self,
        mem: &mut Memory,
        _sourceWord: u32,
        destinationWord: u32,
    ) -> (r: u32)
        requires
            old(self).dest_wf(),
            old(self).tally_ok(old(mem)@.len()),
        ensures
            r == destinationWord,
            *final(self) == *old(self),
            final(mem)@ == old(self).tally_all(old(mem)@, destinationWord),
            final(mem)@.len() == old(mem)@.len(),
    {
        if self.cmFlags & (COLOR_MAP_PRESENT | COLOR_MAP_INDEXED_PART) != (COLOR_MAP_PRESENT
            | COLOR_MAP_INDEXED_PART) {
            return destinationWord;
        }
        if self.destDepth < 16 {
            let depth: sqInt = self.destDepth as sqInt;
            let indexMask: sqInt = maskFor(depth) as sqInt & self.cmMask;
            let mut shiftWord: u32 = destinationWord;
            let mut left: sqInt = self.destPPW;
            proof {
                lemma_ppw_bound(*self);
            }
            while left > 0
                invariant
                    *self == *old(self),
                    depth == self.destDepth,
                    0 <= left,
                    self.lookup_ok(mem@.len()),
                    mem@.len() == old(mem)@.len(),
                    self.tally_plain(mem@, shiftWord, indexMask, left as int) == self.tally_plain(
                        old(mem)@,
                        destinationWord,
                        indexMask,
                        self.destPPW as int,
                    ),
                decreases left,
            {
                self.tallyAt(mem, shiftWord as sqInt & indexMask);
                shiftWord = shr32(shiftWord, depth);
                left = left - 1;
            }
            return destinationWord;
        }
        if self.destDepth == 16 {
            proof {
                lemma_map_fits((destinationWord & 0xFFFF) as sqInt, 5, self.cmBitsPerColor as int);
                lemma_map_fits((destinationWord >> 16) as sqInt, 5, self.cmBitsPerColor as int);
            }
            // the right half, then the left
            let right: sqInt = rgbMapfromto(
                (destinationWord & 0xFFFF) as sqInt,
                5,
                self.cmBitsPerColor,
            );
            self.tallyAt(mem, right);
            let left: sqInt = rgbMapfromto((destinationWord >> 16) as sqInt, 5, self.cmBitsPerColor);
            self.tallyAt(mem, left);
        } else {
            proof {
                lemma_map_fits(destinationWord as sqInt, 8, self.cmBitsPerColor as int);
            }
            let index: sqInt = rgbMapfromto(destinationWord as sqInt, 8, self.cmBitsPerColor);
            self.tallyAt(mem, index);
        }
        destinationWord
    }

    /// Rule 33: counts the destination pixels inside the mask in the color map.
    pub fn tallyIntoMapwith(
        &mut self,
        mem: &mut Memory,
        _sourceWord: u32,
        destinationWord: u32,
    ) -> (r: u32)
        requires
            old(self).dest_wf(),
            old(self).tally_ok(old(mem)@.len()),
        ensures
            r == destinationWord,
            *final(self) == *old(self),
            final(mem)@ == old(self).tally_inside(
                old(self).destMask,
                old(mem)@,
                destinationWord,
            ),
            final(mem)@.len() == old(mem)@.len(),
    {
        if self.cmFlags & (COLOR_MAP_PRESENT | COLOR_MAP_INDEXED_PART) != (COLOR_MAP_PRESENT
            | COLOR_MAP_INDEXED_PART) {
            return destinationWord;
        }
        let depth: sqInt = self.destDepth as sqInt;
        let pixMask: u32 = maskFor(depth);
        let mut destShifted: u32 = destinationWord;
        let mut maskShifted: u32 = self.destMask;
        let mut left: sqInt = self.destPPW;
        proof {
            lemma_ppw_bound(*self);
        }
        while left > 0
            invariant
                *self == *old(self),
                self.dest_wf(),
                self.destDepth >= 16 ==> 0 <= self.cmBitsPerColor <= 8,
                depth == self.destDepth,
                pixMask == width_mask(depth as int),
                0 <= left,
                self.lookup_ok(mem@.len()),
                mem@.len() == old(mem)@.len(),
                self.tally_masked(mem@, maskShifted, destShifted, left as int)
                    == self.tally_masked(
                    old(mem)@,
                    self.destMask,
                    destinationWord,
                    self.destPPW as int,
                ),
            decreases left,
        {
            if maskShifted & pixMask != 0 {
                let pixVal: u32 = destShifted & pixMask;
                proof {
                    if self.destDepth >= 16 {
                        lemma_map_fits(pixVal as sqInt, 5, self.cmBitsPerColor as int);
                        lemma_map_fits(pixVal as sqInt, 8, self.cmBitsPerColor as int);
                    }
                }
                let mapIndex: sqInt = if self.destDepth < 16 {
                    pixVal as sqInt
                } else if self.destDepth == 16 {
                    rgbMapfromto(pixVal as sqInt, 5, self.cmBitsPerColor)
                } else {
                    rgbMapfromto(pixVal as sqInt, 8, self.cmBitsPerColor)
                };
                self.tallyAt(mem, mapIndex);
            }
            maskShifted = shr32(maskShifted, depth);
            destShifted = shr32(destShifted, depth);
            left = left - 1;
        }
        destinationWord
    }
}

pub(crate) proof fn lemma_and_bounds(x: sqInt, m: sqInt)
    by (bit_vector)
    ensures
        x >= 0i64 ==> 0 <= (x & m) && (x & m) <= x,
        m >= 0i64 ==> 0 <= (x & m) && (x & m) <= m,
{
}

proof fn lemma_small_color_masks(m: u64, n: u64, one: u32, d: u64)
    by (bit_vector)
    requires
        m <= 0xFF,
        n <= 8,
        d <= 8,
        d + n <= 8,
        one == 1u32 << (n as u32),
    ensures
        m << n <= 0xFFFF,
        (m << n) << n <= 0xFFFFFF,
        1 <= one && one <= 256,
        (((one - 1) as u32) as u64) << d <= 0xFF,
{
}

/// Color components of up to 8 bits each stay small when they are moved.
pub(crate) proof fn lemma_map_fits(pixel: sqInt, n_in: int, n_out: int)
    requires
        0 <= n_in <= 8,
        0 <= n_out <= 8,
    ensures
        rgb_map_fits(pixel, n_in, n_out),
        n_in != n_out ==> 0 <= moved_pixel(pixel, n_in, n_out) <= 0x1FF_FFFF,
{
    if n_out > n_in {
        let d = n_out - n_in;
        lemma_small_color_masks(0, n_in as u64, 1u32 << (n_in as u32), d as u64);
        let mask = shift_long(shl_word(1, n_in).wrapping_sub(1) as sqInt, d);
        assert(0 <= mask <= 0xFF);
        lemma_small_color_masks(mask as u64, n_out as u64, 1u32 << (n_out as u32), 0);
        assert(0 <= shift_long(mask, n_out) <= 0xFFFF);
        assert(0 <= shift_long(shift_long(mask, n_out), n_out) <= 0xFFFFFF);
        lemma_and_bounds(shift_long(pixel, d), mask);
        lemma_and_bounds(shift_long(shift_long(pixel, d), d), shift_long(mask, n_out));
        lemma_and_bounds(
            shift_long(shift_long(shift_long(pixel, d), d), d),
            shift_long(shift_long(mask, n_out), n_out),
        );
    } else {
        let d = n_in - n_out;
        lemma_small_color_masks(0, n_out as u64, 1u32 << (n_out as u32), 0);
        let mask = shl_word(1, n_out).wrapping_sub(1) as sqInt;
        assert(0 <= mask <= 0xFF);
        lemma_small_color_masks(mask as u64, n_out as u64, 1u32 << (n_out as u32), 0);
        assert(0 <= shift_long(mask, n_out) <= 0xFFFF);
        assert(0 <= shift_long(shift_long(mask, n_out), n_out) <= 0xFFFFFF);
        lemma_and_bounds(shift_long(pixel, -d), mask);
        lemma_and_bounds(shift_long(shift_long(pixel, -d), -d), shift_long(mask, n_out));
        lemma_and_bounds(
            shift_long(shift_long(shift_long(pixel, -d), -d), -d),
            shift_long(shift_long(mask, n_out), n_out),
        );
    }
}

/// What a combination rule makes of two words: the combined word, the running
/// count of differences and the memory, which the tallying rules write to.
pub struct Merged {
    pub word: u32,
    pub count: int,
    pub mem: Seq<u8>,
}

impl BitBlt {
    // ---- The choice of a rule ---------------------------------------------

    /// The word that the rule in force makes of a source and a destination
    /// word, `mask` being the destination mask.
    pub open spec fn merged_word(self, mask: u32, m: Seq<u8>, s: u32, d: u32) -> u32 {
        let rule = self.combinationRule;
        if rule == 0 {
            0
        } else if rule == 1 {
            s & d
        } else if rule == 2 {
            s & !d
        } else if rule == 3 {
            s
        } else if rule == 4 {
            !s & d
        } else if rule == 6 {
            s ^ d
        } else if rule == 7 {
            s | d
        } else if rule == 8 {
            !s & !d
        } else if rule == 9 {
            !s ^ d
        } else if rule == 10 {
            !d
        } else if rule == 11 {
            s | !d
        } else if rule == 12 {
            !s
        } else if rule == 13 {
            !s | d
        } else if rule == 14 {
            !s | !d
        } else if rule == 18 {
            ((s + d) % 0x1_0000_0000) as u32
        } else if rule == 19 {
            ((s - d) % 0x1_0000_0000) as u32
        } else if rule == 20 {
            self.add_components(s, d)
        } else if rule == 21 {
            self.by_components(distance(), s, d)
        } else if rule == 24 {
            alpha_blend(s, d)
        } else if rule == 25 {
            self.paint(s, d)
        } else if rule == 26 {
            where_filled(!s, d, self.destDepth as int, self.destPPW as int)
        } else if rule == 27 {
            self.by_components(larger(), s, d)
        } else if rule == 28 {
            self.by_components(smaller(), s, d)
        } else if rule == 29 {
            self.by_components(smaller(), !s, d)
        } else if rule == 30 {
            self.blend_const(mask, s, d, false)
        } else if rule == 31 {
            if s == 0 {
                d
            } else {
                self.blend_const(mask, s, d, true)
            }
        } else if 34 <= rule <= 36 {
            alpha_blend_scaled(s, d)
        } else if rule == 37 {
            self.multiply_components(s, d)
        } else if rule == 38 {
            self.reversed_pixels(d)
        } else if rule == 39 {
            self.clear_equal(s, d)
        } else if rule == 40 {
            self.fix_alpha(s, d)
        } else if rule == 41 {
            self.component_word(m, s, d)
        } else {
            d
        }
    }

    /// What the rule in force adds to the count of differences.
    pub open spec fn merged_count(self, mask: u32, s: u32, d: u32) -> int {
        if self.combinationRule == 22 {
            self.word_difference(s, d)
        } else if self.combinationRule == 32 {
            self.masked_difference(mask, s, d, self.destPPW as int)
        } else {
            0
        }
    }

    /// The memory after the rule in force has been applied.
    pub open spec fn merged_memory(self, mask: u32, m: Seq<u8>, d: u32) -> Seq<u8> {
        if self.combinationRule == 23 {
            self.tally_all(m, d)
        } else if self.combinationRule == 33 {
            self.tally_inside(mask, m, d)
        } else {
            m
        }
    }

    /// All that the rule in force does with a source and a destination word.
    #[verifier::opaque]
    pub open spec fn merge(self, mask: u32, m: Seq<u8>, count: int, s: u32, d: u32) -> Merged {
        Merged {
            word: self.merged_word(mask, m, s, d),
            count: count + self.merged_count(mask, s, d),
            mem: self.merged_memory(mask, m, d),
        }
    }

    /// What the rule in force reads is there: a color map for the tallying
    /// rules, the gamma tables for rule 41, an alpha within a byte for the
    /// blends with a constant.
    pub open spec fn merge_ok(self, size: nat) -> bool {
        &&& self.dest_wf()
        &&& (self.combinationRule == 30 || self.combinationRule == 31) && self.destDepth >= 16
            ==> self.sourceAlpha as u32 <= 0xFF
        &&& self.combinationRule == 23 || self.combinationRule == 33 ==> self.tally_ok(size)
        &&& self.combinationRule == 41 ==> self.gammas_ok(size)
    }

    /// The most that one word can add to the count under the rule in force.
    pub open spec fn count_step(self) -> int {
        if self.combinationRule == 22 || self.combinationRule == 32 {
            Self::count_limit()
        } else {
            0
        }
    }

    /// The rule in force keeps the size of the memory and adds a bounded amount
    /// to the count.
    pub(crate) proof fn lemma_merge(self, mask: u32, m: Seq<u8>, count: int, s: u32, d: u32)
        requires
            self.dest_wf(),
        ensures
            self.merge(mask, m, count, s, d).mem.len() == m.len(),
            count <= self.merge(mask, m, count, s, d).count <= count + self.count_step(),
    {
        reveal(BitBlt::merge);
        lemma_ppw_bound(self);
        self.lemma_count_limit(mask, s, d);
        self.lemma_tally_plain_len(
            m,
            d,
            width_mask(self.destDepth as int) as sqInt & self.cmMask,
            self.destPPW as int,
        );
        self.lemma_tally_masked_len(m, mask, d, self.destPPW as int);
    }

    /// The registers without those that the copy loops step through.
    pub open spec fn steady(self) -> BitBlt {
        BitBlt {
            bitCount: 0,
            destIndex: 0,
            destMask: 0,
            dstBitShift: 0,
            sourceIndex: 0,
            srcBitShift: 0,
            sx: 0,
            sy: 0,
            ..self
        }
    }

    /// The rule in force depends on none of the registers that the copy loops
    /// step through.
    pub(crate) proof fn lemma_merge_steady(
        self,
        other: BitBlt,
        mask: u32,
        m: Seq<u8>,
        count: int,
        s: u32,
        d: u32,
    )
        requires
            self.steady() == other.steady(),
        ensures
            self.merge(mask, m, count, s, d) == other.merge(mask, m, count, s, d),
    {
        reveal(BitBlt::merge);
        self.lemma_difference_steady(other, mask, s, d, self.destPPW as int);
        self.lemma_tally_plain_steady(
            other,
            m,
            d,
            width_mask(self.destDepth as int) as sqInt & self.cmMask,
            self.destPPW as int,
        );
        self.lemma_tally_masked_steady(other, m, mask, d, self.destPPW as int);
        self.lemma_component_steady(other, m, s, d, self.destPPW as int);
        assert(self.steady().combinationRule == other.steady().combinationRule);
    }

    proof fn lemma_difference_steady(self, other: BitBlt, mask: u32, s: u32, d: u32, n: int)
        requires
            self.steady() == other.steady(),
        ensures
            self.masked_difference(mask, s, d, n) == other.masked_difference(mask, s, d, n),
        decreases n,
    {
        assert(self.steady().destDepth == other.steady().destDepth);
        if n > 0 {
            let depth = self.destDepth as int;
            self.lemma_difference_steady(
                other,
                shr_word(mask, depth),
                shr_word(s, depth),
                shr_word(d, depth),
                n - 1,
            );
        }
    }

    proof fn lemma_tally_plain_steady(
        self,
        other: BitBlt,
        m: Seq<u8>,
        w: u32,
        index_mask: sqInt,
        n: int,
    )
        requires
            self.steady() == other.steady(),
        ensures
            self.tally_plain(m, w, index_mask, n) == other.tally_plain(m, w, index_mask, n),
        decreases n,
    {
        assert(self.steady().destDepth == other.steady().destDepth);
        if n > 0 {
            assert(self.tally(m, w as sqInt & index_mask) == other.tally(
                m,
                w as sqInt & index_mask,
            ));
            self.lemma_tally_plain_steady(
                other,
                self.tally(m, w as sqInt & index_mask),
                shr_word(w, self.destDepth as int),
                index_mask,
                n - 1,
            );
        }
    }

    proof fn lemma_tally_masked_steady(
        self,
        other: BitBlt,
        m: Seq<u8>,
        mask: u32,
        w: u32,
        n: int,
    )
        requires
            self.steady() == other.steady(),
        ensures
            self.tally_masked(m, mask, w, n) == other.tally_masked(m, mask, w, n),
        decreases n,
    {
        assert(self.steady().destDepth == other.steady().destDepth);
        if n > 0 {
            let pixel = width_mask(self.destDepth as int);
            let depth = self.destDepth as int;
            let m1 = if mask & pixel != 0 {
                self.tally(m, self.tally_index(w & pixel))
            } else {
                m
            };
            self.lemma_tally_masked_steady(
                other,
                m1,
                shr_word(mask, depth),
                shr_word(w, depth),
                n - 1,
            );
        }
    }

    proof fn lemma_component_steady(self, other: BitBlt, m: Seq<u8>, s: u32, d: u32, n: int)
        requires
            self.steady() == other.steady(),
        ensures
            self.component_pixels(m, s, d, n) == other.component_pixels(m, s, d, n),
        decreases n,
    {
        assert(self.steady().destDepth == other.steady().destDepth);
        if n > 0 {
            self.lemma_component_steady(other, m, s, d, n - 1);
        }
    }

    proof fn lemma_tally_plain_len(self, m: Seq<u8>, w: u32, index_mask: sqInt, n: int)
        ensures
            self.tally_plain(m, w, index_mask, n).len() == m.len(),
        decreases n,
    {
        if n > 0 {
            self.lemma_tally_plain_len(
                self.tally(m, w as sqInt & index_mask),
                shr_word(w, self.destDepth as int),
                index_mask,
                n - 1,
            );
        }
    }

    proof fn lemma_tally_masked_len(self, m: Seq<u8>, mask: u32, w: u32, n: int)
        ensures
            self.tally_masked(m, mask, w, n).len() == m.len(),
        decreases n,
    {
        if n > 0 {
            let pixel = width_mask(self.destDepth as int);
            let depth = self.destDepth as int;
            self.lemma_tally_masked_len(
                if mask & pixel != 0 {
                    self.tally(m, self.tally_index(w & pixel))
                } else {
                    m
                },
                shr_word(mask, depth),
                shr_word(w, depth),
                n - 1,
            );
        }
    }

    /// Applies the combination rule in force. Rules 15 to 17 and every number
    /// that names no rule answer the destination.
    pub fn mergeFnwith(
        &mut self,
        mem: &mut Memory,
        sourceWord: u32,
        destinationWord: u32,
    ) -> (r: u32)
        requires
            old(self).merge_ok(old(mem)@.len()),
            old(self).bitCount + old(self).count_step() <= sqInt::MAX,
        ensures
            ({
                let merged = old(self).merge(
                    old(self).destMask,
                    old(mem)@,
                    old(self).bitCount as int,
                    sourceWord,
                    destinationWord,
                );
                &&& r == merged.word
                &&& *final(self) == (BitBlt { bitCount: merged.count as sqInt, ..*old(self) })
                &&& final(mem)@ == merged.mem
                &&& final(mem)@.len() == old(mem)@.len()
                &&& sqInt::MIN <= merged.count <= sqInt::MAX
            }),
    {
        reveal(BitBlt::merge);
        proof {
            self.lemma_merge(
                self.destMask,
                mem@,
                self.bitCount as int,
                sourceWord,
                destinationWord,
            );
        }
        match self.combinationRule {
            0 => 0,
            1 => sourceWord & destinationWord,
            2 => sourceWord & !destinationWord,
            3 => sourceWord,
            4 => !sourceWord & destinationWord,
            5 => destinationWord,
            6 => sourceWord ^ destinationWord,
            7 => sourceWord | destinationWord,
            8 => !sourceWord & !destinationWord,
            9 => !sourceWord ^ destinationWord,
            10 => !destinationWord,
            11 => sourceWord | !destinationWord,
            12 => !sourceWord,
            13 => !sourceWord | destinationWord,
            14 => !sourceWord | !destinationWord,
            15 => destinationWord,
            16 => destinationWord,
            17 => destinationWord,
            18 => addWordwith(sourceWord, destinationWord),
            19 => subWordwith(sourceWord, destinationWord),
            20 => self.rgbAddwith(sourceWord, destinationWord),
            21 => self.rgbSubwith(sourceWord, destinationWord),
            22 => self.OLDrgbDiffwith(sourceWord, destinationWord),
            23 => self.OLDtallyIntoMapwith(mem, sourceWord, destinationWord),
            24 => alphaBlendwith(sourceWord, destinationWord),
            25 => self.pixPaintwith(sourceWord, destinationWord),
            26 => self.pixMaskwith(sourceWord, destinationWord),
            27 => self.rgbMaxwith(sourceWord, destinationWord),
            28 => self.rgbMinwith(sourceWord, destinationWord),
            29 => self.rgbMinInvertwith(sourceWord, destinationWord),
            30 => self.alphaBlendConstwith(sourceWord, destinationWord),
            31 => self.alphaPaintConstwith(sourceWord, destinationWord),
            32 => self.rgbDiffwith(sourceWord, destinationWord),
            33 => self.tallyIntoMapwith(mem, sourceWord, destinationWord),
            34 => alphaBlendScaledwith(sourceWord, destinationWord),
            35 => alphaBlendScaledwith(sourceWord, destinationWord),
            36 => alphaBlendScaledwith(sourceWord, destinationWord),
            37 => self.rgbMulwith(sourceWord, destinationWord),
            38 => self.pixSwapwith(sourceWord, destinationWord),
            39 => self.pixClearwith(sourceWord, destinationWord),
            40 => self.fixAlphawith(sourceWord, destinationWord),
            41 => self.rgbComponentAlphawith(mem, sourceWord, destinationWord),
            _ => destinationWord,
        }
    }
}

proof fn lemma_components16(w: u32)
    by (bit_vector)
    ensures
        w & 0x1F <= 31,
        (w >> 5) & 0x1F <= 31,
        (w >> 10) & 0x1F <= 31,
{
}

proof fn lemma_mix5(x: u32, y: u32, a: u32)
    requires
        x <= 31,
        y <= 31,
        a <= 255,
    ensures
        0 <= x * a <= 7905,
        0 <= y * (255 - a) <= 7905,
        0 <= x * a + y * (255 - a) <= 7905,
{
    assert(0 <= x * a <= 7905 && 0 <= y * (255 - a) <= 7905 && 0 <= x * a + y * (255 - a) <= 7905)
        by (nonlinear_arith)
        requires
            x <= 31,
            y <= 31,
            a <= 255,
    ;
}

} // verus!
