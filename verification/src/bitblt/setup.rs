//! Setting a blit up: clipping, the masks of the first and the last word of a
//! row, the direction of the copy, and the skew between source and destination.
use vstd::prelude::*;
use crate::prim::{sqInt, UsqInt};
use crate::bitblt::memory::{stepped, wrap_addr};
use crate::bitblt::state::{shl32, shl_word, shr32, shr_word, BitBlt, ALL_ONES};
use crate::bitblt::merge::lemma_ppw_bound;
use crate::bitblt::pixmap::lemma_place;

verus! {

broadcast use crate::bitblt::memory::group_memory;

/// Division that rounds towards 0.
pub open spec fn quotient(a: int, b: int) -> int {
    if a >= 0 {
        a / b
    } else {
        -((-a) / b)
    }
}

/// One dimension of a blit: where it starts in the source and in the
/// destination, and how many pixels it has.
pub struct Extent {
    pub source: int,
    pub dest: int,
    pub size: int,
}

impl Extent {
    /// A blit of `size` pixels from `source` to `dest`, cut down to the `clip_size`
    /// pixels of the destination from `clip` on. The three results are kept in
    /// 32 bits.
    pub open spec fn in_clip(
        source: int,
        dest: int,
        size: int,
        clip: int,
        clip_size: int,
    ) -> Extent {
        let cut = if dest >= clip {
            0
        } else {
            clip - dest
        };
        let d = (dest + cut) as i32;
        let n = (size - cut) as i32;
        let over = d + n - (clip + clip_size);
        Extent {
            source: (source + cut) as i32 as int,
            dest: d as int,
            size: if over > 0 {
                n - (over as i32)
            } else {
                n as int
            },
        }
    }

    /// The same, cut down to the `limit` pixels of the source too.
    pub open spec fn in_source(self, limit: int) -> Extent {
        let cut = if self.source < 0 {
            -self.source
        } else {
            0
        };
        let s = self.source + cut;
        let n = self.size - cut;
        Extent {
            source: s,
            dest: self.dest + cut,
            size: if s + n > limit {
                limit - s
            } else {
                n
            },
        }
    }

    /// Clipping to the destination stays within the machine's integers.
    pub open spec fn in_clip_fits(
        source: int,
        dest: int,
        size: int,
        clip: int,
        clip_size: int,
    ) -> bool {
        let cut = if dest >= clip {
            0
        } else {
            clip - dest
        };
        let d = (dest + cut) as i32;
        let n = (size - cut) as i32;
        let over = d + n - (clip + clip_size);
        &&& sqInt::MIN <= cut <= sqInt::MAX
        &&& sqInt::MIN <= source + cut <= sqInt::MAX
        &&& sqInt::MIN <= size - cut <= sqInt::MAX
        &&& sqInt::MIN <= clip + clip_size <= sqInt::MAX
        &&& sqInt::MIN <= over <= sqInt::MAX
        &&& over > 0 ==> i32::MIN <= n - (over as i32) <= i32::MAX
    }

    /// Clipping to the source stays within 32 bits.
    pub open spec fn in_source_fits(self, limit: int) -> bool {
        let cut = if self.source < 0 {
            -self.source
        } else {
            0
        };
        let s = self.source + cut;
        let n = self.size - cut;
        &&& i32::MIN <= self.dest + cut <= i32::MAX
        &&& i32::MIN <= n <= i32::MAX
        &&& i32::MIN <= s + n <= i32::MAX
        &&& s + n > limit ==> i32::MIN <= s + n - limit <= i32::MAX && i32::MIN <= limit - s
            <= i32::MAX
    }
}

fn clipToDest(source: sqInt, dest: sqInt, size: sqInt, clip: sqInt, clipSize: sqInt) -> (r: (
    i32,
    i32,
    i32,
))
    requires
        Extent::in_clip_fits(
            source as int,
            dest as int,
            size as int,
            clip as int,
            clipSize as int,
        ),
    ensures
        ({
            let e = Extent::in_clip(
                source as int,
                dest as int,
                size as int,
                clip as int,
                clipSize as int,
            );
            r.0 == e.source && r.1 == e.dest && r.2 == e.size
        }),
{
    let cut: sqInt = if dest >= clip {
        0
    } else {
        clip - dest
    };
    let s: i32 = (source + cut) as i32;
    let d: i32 = (dest + cut) as i32;
    let n: i32 = (size - cut) as i32;
    let over: sqInt = (d as sqInt + n as sqInt) - (clip + clipSize);
    if over > 0 {
        (s, d, n - over as i32)
    } else {
        (s, d, n)
    }
}

fn clipToSource(source: i32, dest: i32, size: i32, limit: i32) -> (r: (i32, i32, i32))
    requires
        (Extent { source: source as int, dest: dest as int, size: size as int }).in_source_fits(
            limit as int,
        ),
    ensures
        ({
            let e = (Extent {
                source: source as int,
                dest: dest as int,
                size: size as int,
            }).in_source(limit as int);
            r.0 == e.source && r.1 == e.dest && r.2 == e.size
        }),
{
    let mut s: i32 = source;
    let mut d: i32 = dest;
    let mut n: i32 = size;
    if s < 0 {
        d = d - s;
        n = n + s;
        s = 0;
    }
    if s + n > limit {
        n = n - ((s + n) - limit);
    }
    (s, d, n)
}

/// The address of a word, `row` rows of `pitch` bytes and `word` words past a
/// base address.
pub fn wordAddress(base: UsqInt, row: i32, pitch: i32, x: i32, perWord: sqInt) -> (r: UsqInt)
    requires
        1 <= perWord <= 32,
    ensures
        r == wrap_addr(base + row * pitch + quotient(x as int, perWord as int) * 4),
{
    proof {
        lemma_area(row as int, pitch as int);
        lemma_quotient_range(x as int, perWord as int);
        lemma_quotient_range(-x, perWord as int);
        assert(base == wrap_addr(base as int));
    }
    let word: sqInt = x as sqInt / perWord;
    stepped(base, row as sqInt * pitch as sqInt + word * 4)
}

/// The step from the end of one row to the start of the next.
fn rowStep(pitch: i32, vDir: sqInt, words: sqInt, hDir: sqInt) -> (r: sqInt)
    requires
        vDir == 1 || vDir == -1,
        hDir == 1 || hDir == -1,
        -0x1_0000_0000 <= words <= 0x1_0000_0000,
    ensures
        r == pitch * vDir - 4 * (words * hDir),
        -0x5_0000_0000 <= r <= 0x5_0000_0000,
{
    assert(words * hDir == words || words * hDir == -words) by (nonlinear_arith)
        requires
            hDir == 1 || hDir == -1,
    ;
    assert(pitch * vDir == pitch || pitch * vDir == -pitch) by (nonlinear_arith)
        requires
            vDir == 1 || vDir == -1,
    ;
    pitch as sqInt * vDir - 4 * (words * hDir)
}

impl BitBlt {
    // ---- Clipping ---------------------------------------------------------

    /// The columns of the blit inside the clipping rectangle.
    pub open spec fn clip_columns(self) -> Extent {
        Extent::in_clip(
            self.sourceX as int,
            self.destX as int,
            self.width as int,
            self.clipX as int,
            self.clipWidth as int,
        )
    }

    /// The rows of the blit inside the clipping rectangle.
    pub open spec fn clip_rows(self) -> Extent {
        Extent::in_clip(
            self.sourceY as int,
            self.destY as int,
            self.height as int,
            self.clipY as int,
            self.clipHeight as int,
        )
    }

    /// Clipping this blit stays within the machine's integers.
    pub open spec fn clip_fits(self) -> bool {
        &&& Extent::in_clip_fits(
            self.sourceX as int,
            self.destX as int,
            self.width as int,
            self.clipX as int,
            self.clipWidth as int,
        )
        &&& Extent::in_clip_fits(
            self.sourceY as int,
            self.destY as int,
            self.height as int,
            self.clipY as int,
            self.clipHeight as int,
        )
        &&& !self.noSource ==> self.clip_columns().in_source_fits(self.sourceWidth as int)
            && self.clip_rows().in_source_fits(self.sourceHeight as int)
    }

    /// The registers after clipping: the blit cut down to the clipping
    /// rectangle, and to the source unless there is none.
    pub open spec fn clipped(self) -> BitBlt {
        let x = if self.noSource {
            self.clip_columns()
        } else {
            self.clip_columns().in_source(self.sourceWidth as int)
        };
        let y = if self.noSource {
            self.clip_rows()
        } else {
            self.clip_rows().in_source(self.sourceHeight as int)
        };
        BitBlt {
            sx: x.source as i32,
            dx: x.dest as i32,
            bbW: x.size as i32,
            sy: y.source as i32,
            dy: y.dest as i32,
            bbH: y.size as i32,
            ..self
        }
    }

    /// Clips the blit, moving the source origin along with the destination.
    pub fn clipRange(&mut self)
        requires
            old(self).clip_fits(),
        ensures
            *final(self) == old(self).clipped(),
    {
        let (mut sx, mut dx, mut bbW): (i32, i32, i32) = clipToDest(
            self.sourceX,
            self.destX,
            self.width,
            self.clipX,
            self.clipWidth,
        );
        let (mut sy, mut dy, mut bbH): (i32, i32, i32) = clipToDest(
            self.sourceY,
            self.destY,
            self.height,
            self.clipY,
            self.clipHeight,
        );
        if !self.noSource {
            let (sx1, dx1, w1): (i32, i32, i32) = clipToSource(sx, dx, bbW, self.sourceWidth);
            sx = sx1;
            dx = dx1;
            bbW = w1;
            let (sy1, dy1, h1): (i32, i32, i32) = clipToSource(sy, dy, bbH, self.sourceHeight);
            sy = sy1;
            dy = dy1;
            bbH = h1;
        }
        self.sx = sx;
        self.dx = dx;
        self.bbW = bbW;
        self.sy = sy;
        self.dy = dy;
        self.bbH = bbH;
    }

    // ---- Destination masks ------------------------------------------------

    /// How many pixels of the word that holds pixel `x` are at `x` or to its
    /// right.
    pub open spec fn pixels_from(self, x: int) -> int {
        self.destPPW - (x as sqInt & ((self.destPPW - 1) as sqInt))
    }

    /// How many pixels of the word that holds pixel `x` are at `x` or to its
    /// left.
    pub open spec fn pixels_to(self, x: int) -> int {
        (x as sqInt & ((self.destPPW - 1) as sqInt)) + 1
    }

    /// At least one pixel and at most a word of them.
    pub(crate) proof fn lemma_pixels_from(self, x: int)
        requires
            self.dest_wf(),
        ensures
            1 <= self.pixels_from(x) <= self.destPPW,
            1 <= self.pixels_to(x) <= self.destPPW,
    {
        lemma_ppw_bound(self);
        lemma_place(x as sqInt, (self.destPPW - 1) as sqInt);
    }

    /// Pixels of the first word of a row that the blit may touch, as bits: the
    /// last `n` of the word.
    pub open spec fn last_pixels_mask(self, n: int) -> u32 {
        if self.destMSB != 0 {
            shr_word(ALL_ONES, 32 - n * self.destDepth)
        } else {
            shl_word(ALL_ONES, 32 - n * self.destDepth)
        }
    }

    /// The first `n` pixels of a word, as bits.
    pub open spec fn first_pixels_mask(self, n: int) -> u32 {
        if self.destMSB != 0 {
            shl_word(ALL_ONES, 32 - n * self.destDepth)
        } else {
            shr_word(ALL_ONES, 32 - n * self.destDepth)
        }
    }

    /// The address of the word that holds pixel `x` of row `y` of the
    /// destination.
    pub open spec fn dest_word_addr(self, x: int, y: int) -> int {
        self.destBits + y * self.destPitch + quotient(x, self.destPPW as int) * 4
    }

    /// The registers with the masks, the word count and the address of the first
    /// destination word worked out from the clipped blit.
    pub open spec fn with_dest_masks(self) -> BitBlt {
        let start = self.pixels_from(self.dx as int);
        let end = self.pixels_to(self.dx + self.bbW - 1);
        let m1 = self.last_pixels_mask(start);
        let m2 = self.first_pixels_mask(end);
        let single = self.bbW < start;
        let words = if single {
            1
        } else {
            (self.bbW - start + self.destPPW - 1) / self.destPPW as int + 1
        };
        BitBlt {
            mask1: if single {
                m1 & m2
            } else {
                m1
            },
            mask2: if single {
                0
            } else {
                m2
            },
            nWords: words as sqInt,
            hDir: 1,
            vDir: 1,
            destIndex: wrap_addr(self.dest_word_addr(self.dx as int, self.dy as int)),
            destDelta: (self.destPitch - 4 * words) as sqInt,
            ..self
        }
    }

    /// Works out the masks of the first and last destination word of a row, the
    /// number of words, and where the destination starts.
    pub fn destMaskAndPointerInit(&mut self)
        requires
            old(self).dest_wf(),
        ensures
            *final(self) == old(self).with_dest_masks(),
    {
        proof {
            lemma_ppw_bound(*self);
        }
        let ppw: sqInt = self.destPPW;
        let depth: sqInt = self.destDepth as sqInt;
        let pixPerM1: sqInt = ppw - 1;
        let x0: sqInt = self.dx as sqInt;
        let x1: sqInt = (self.dx as sqInt + self.bbW as sqInt) - 1;
        proof {
            lemma_place(x0, pixPerM1);
            lemma_place(x1, pixPerM1);
        }
        let startBits: sqInt = ppw - (x0 & pixPerM1);
        let endBits: sqInt = (x1 & pixPerM1) + 1;
        proof {
            lemma_product_range(startBits as int, depth as int);
            lemma_product_range(endBits as int, depth as int);
        }
        if self.destMSB != 0 {
            self.mask1 = shr32(ALL_ONES, 32 - startBits * depth);
            self.mask2 = shl32(ALL_ONES, 32 - endBits * depth);
        } else {
            self.mask1 = shl32(ALL_ONES, 32 - startBits * depth);
            self.mask2 = shr32(ALL_ONES, 32 - endBits * depth);
        }
        if (self.bbW as sqInt) < startBits {
            self.mask1 = self.mask1 & self.mask2;
            self.mask2 = 0;
            self.nWords = 1;
        } else {
            let n: sqInt = (self.bbW as sqInt - startBits) + pixPerM1;
            proof {
                lemma_quotient_range(n as int, ppw as int);
            }
            self.nWords = n / ppw + 1;
        }
        self.hDir = 1;
        self.vDir = 1;
        self.destIndex = wordAddress(self.destBits, self.dy, self.destPitch, self.dx, ppw);
        self.destDelta = rowStep(self.destPitch, self.vDir, self.nWords, self.hDir);
    }

    // ---- Overlap ----------------------------------------------------------

    /// The copy has to start at the bottom.
    pub open spec fn copies_upwards(self) -> bool {
        self.sourceForm == self.destForm && self.dy > self.sy
    }

    /// The copy has to start at the right.
    pub open spec fn copies_leftwards(self) -> bool {
        self.sourceForm == self.destForm && self.dy == self.sy && self.dx > self.sx
    }

    /// The registers with the direction of the copy chosen: when source and
    /// destination are one form, it starts at the end where no source pixel is
    /// overwritten before it is read.
    pub open spec fn with_direction(self) -> BitBlt {
        if !(self.sourceForm == self.destForm && self.dy >= self.sy) {
            self
        } else {
            let up = self.copies_upwards();
            let left = self.copies_leftwards();
            let dx = if left {
                self.dx + self.bbW - 1
            } else {
                self.dx as int
            };
            let dy = if up {
                self.dy + self.bbH - 1
            } else {
                self.dy as int
            };
            let v: int = if up {
                -1
            } else {
                self.vDir as int
            };
            let h: int = if left {
                -1
            } else {
                self.hDir as int
            };
            let exchanged = left && self.nWords > 1;
            BitBlt {
                sx: (if left {
                    self.sx + self.bbW - 1
                } else {
                    self.sx as int
                }) as i32,
                sy: (if up {
                    self.sy + self.bbH - 1
                } else {
                    self.sy as int
                }) as i32,
                dx: dx as i32,
                dy: dy as i32,
                vDir: v as sqInt,
                hDir: h as sqInt,
                mask1: if exchanged {
                    self.mask2
                } else {
                    self.mask1
                },
                mask2: if exchanged {
                    self.mask1
                } else {
                    self.mask2
                },
                destIndex: wrap_addr(self.dest_word_addr(dx, dy)),
                destDelta: (self.destPitch * v - 4 * (self.nWords * h)) as sqInt,
                ..self
            }
        }
    }

    /// The row and word counts are within what a blit of 32-bit extents has.
    pub open spec fn steps_fit(self) -> bool {
        &&& -0x1_0000_0000 <= self.nWords <= 0x1_0000_0000
        &&& (self.hDir == 1 || self.hDir == -1)
        &&& (self.vDir == 1 || self.vDir == -1)
    }

    /// Chooses the direction of the copy, when source and destination are the
    /// same form.
    pub fn checkSourceOverlap(&mut self)
        requires
            old(self).dest_wf(),
            old(self).steps_fit(),
            old(self).copies_upwards() ==> i32::MIN < old(self).sy + old(self).bbH <= i32::MAX
                && i32::MIN < old(self).dy + old(self).bbH <= i32::MAX,
            old(self).copies_leftwards() ==> i32::MIN < old(self).sx + old(self).bbW <= i32::MAX
                && i32::MIN < old(self).dx + old(self).bbW <= i32::MAX,
        ensures
            *final(self) == old(self).with_direction(),
    {
        if self.sourceForm == self.destForm && self.dy >= self.sy {
            if self.dy > self.sy {
                // start at the bottom
                self.vDir = -1;
                self.sy = self.sy + self.bbH - 1;
                self.dy = self.dy + self.bbH - 1;
            } else if self.dy == self.sy && self.dx > self.sx {
                // start at the right
                self.hDir = -1;
                self.sx = self.sx + self.bbW - 1;
                self.dx = self.dx + self.bbW - 1;
                if self.nWords > 1 {
                    let first: u32 = self.mask1;
                    self.mask1 = self.mask2;
                    self.mask2 = first;
                }
            }
            proof {
                lemma_ppw_bound(*self);
            }
            self.destIndex = wordAddress(
                self.destBits,
                self.dy,
                self.destPitch,
                self.dx,
                self.destPPW,
            );
            self.destDelta = rowStep(self.destPitch, self.vDir, self.nWords, self.hDir);
        }
    }

    // ---- Skew -------------------------------------------------------------

    /// The address of the word that holds pixel `x` of row `y` of the source.
    pub open spec fn source_word_addr(self, x: int, y: int) -> int {
        self.sourceBits + y * self.sourcePitch + quotient(x, 32int / self.sourceDepth as int) * 4
    }

    /// The first source word does not hold all the pixels that the first
    /// destination word takes, so one more has to be read ahead.
    pub open spec fn needs_preload(self) -> bool {
        let start = if self.hDir > 0 {
            self.pixels_from(self.sx as int)
        } else {
            self.pixels_to(self.sx + self.bbW - 1)
        };
        (self.last_pixels_mask(start) & self.mask1) != self.mask1
    }

    /// How many bits to the right the source pixels have to move.
    pub open spec fn raw_skew(self) -> int {
        let s = self.sx as sqInt & ((self.destPPW - 1) as sqInt);
        let d = self.dx as sqInt & ((self.destPPW - 1) as sqInt);
        self.destDepth * (if self.sourceMSB != 0 {
            s - d
        } else {
            d - s
        })
    }

    /// The registers with the skew and the address of the first source word
    /// worked out, for a source of the destination's own depth and bit order.
    pub open spec fn with_skew(self) -> BitBlt {
        let preload = self.needs_preload();
        let skew = self.raw_skew();
        let extra: int = if preload {
            1
        } else {
            0
        };
        BitBlt {
            preload,
            skew: (if !preload {
                skew
            } else if skew < 0 {
                skew + 32
            } else {
                skew - 32
            }) as sqInt,
            sourceIndex: wrap_addr(self.source_word_addr(self.sx as int, self.sy as int)),
            sourceDelta: (self.sourcePitch * self.vDir - 4 * (self.nWords * self.hDir) - extra * (4
                * self.hDir)) as sqInt,
            ..self
        }
    }

    /// Works out the skew between source and destination, for the loop that
    /// copies between forms of the same depth and bit order.
    pub fn sourceSkewAndPointerInit(&mut self)
        requires
            old(self).dest_wf(),
            old(self).steps_fit(),
            old(self).destPPW == old(self).sourcePPW,
            old(self).destMSB == old(self).sourceMSB,
            old(self).destDepth == old(self).sourceDepth,
        ensures
            *final(self) == old(self).with_skew(),
            -32 <= final(self).skew <= 32,
    {
        proof {
            lemma_ppw_bound(*self);
        }
        let ppw: sqInt = self.destPPW;
        let depth: sqInt = self.destDepth as sqInt;
        let pixPerM1: sqInt = ppw - 1;
        let sx: sqInt = self.sx as sqInt;
        let sEnd: sqInt = (self.sx as sqInt + self.bbW as sqInt) - 1;
        proof {
            lemma_place(sx, pixPerM1);
            lemma_place(self.dx as sqInt, pixPerM1);
            lemma_place(sEnd, pixPerM1);
        }
        let sxLowBits: sqInt = sx & pixPerM1;
        let dxLowBits: sqInt = self.dx as sqInt & pixPerM1;
        let startBits: sqInt = if self.hDir > 0 {
            self.sourcePPW - sxLowBits
        } else {
            (sEnd & pixPerM1) + 1
        };
        proof {
            lemma_product_range(startBits as int, depth as int);
        }
        let m1: u32 = if self.destMSB != 0 {
            shr32(ALL_ONES, 32 - startBits * depth)
        } else {
            shl32(ALL_ONES, 32 - startBits * depth)
        };
        // some of the wanted bits are missing
        self.preload = (m1 & self.mask1) != self.mask1;
        let apart: sqInt = if self.sourceMSB != 0 {
            sxLowBits - dxLowBits
        } else {
            dxLowBits - sxLowBits
        };
        proof {
            lemma_skew_range(apart as int, ppw as int, depth as int);
        }
        self.skew = depth * apart;
        if self.preload {
            self.skew = if self.skew < 0 {
                self.skew + 32
            } else {
                self.skew - 32
            };
        }
        self.sourceIndex = wordAddress(self.sourceBits, self.sy, self.sourcePitch, self.sx, 32 / depth);
        self.sourceDelta = rowStep(self.sourcePitch, self.vDir, self.nWords, self.hDir);
        if self.preload {
            // one more source word is fetched
            self.sourceDelta = self.sourceDelta - 4 * self.hDir;
        }
    }
}

proof fn lemma_product_range(a: int, b: int)
    requires
        0 <= a <= 32,
        0 <= b <= 32,
    ensures
        0 <= a * b <= 1024,
{
    assert(0 <= a * b <= 1024) by (nonlinear_arith)
        requires
            0 <= a <= 32,
            0 <= b <= 32,
    ;
}

proof fn lemma_skew_range(apart: int, ppw: int, depth: int)
    requires
        -(ppw - 1) <= apart <= ppw - 1,
        1 <= depth,
        1 <= ppw,
        ppw * depth <= 32,
    ensures
        -31 <= depth * apart <= 31,
{
    assert(-31 <= depth * apart <= 31) by (nonlinear_arith)
        requires
            -(ppw - 1) <= apart <= ppw - 1,
            1 <= depth,
            1 <= ppw,
            ppw * depth <= 32,
    ;
}

/// A quotient is no larger than what is divided.
pub(crate) proof fn lemma_quotient_range(a: int, b: int)
    requires
        1 <= b,
    ensures
        a >= 0 ==> 0 <= a / b <= a,
{
    if a >= 0 {
        assert(0 <= a / b <= a) by (nonlinear_arith)
            requires
                1 <= b,
                0 <= a,
        ;
    }
}

/// The product of two 32-bit integers fits a machine word.
pub(crate) proof fn lemma_area(a: int, b: int)
    requires
        i32::MIN <= a <= i32::MAX,
        i32::MIN <= b <= i32::MAX,
    ensures
        -0x4000_0000_0000_0000 <= a * b <= 0x4000_0000_0000_0000,
{
    assert(-0x4000_0000_0000_0000 <= a * b <= 0x4000_0000_0000_0000) by (nonlinear_arith)
        requires
            -0x8000_0000 <= a <= 0x7FFF_FFFF,
            -0x8000_0000 <= b <= 0x7FFF_FFFF,
    ;
}

} // verus!
