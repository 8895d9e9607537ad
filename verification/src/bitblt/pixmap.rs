//! The general copy loop: between depths, through a color map, between bit
//! orders. Pixels are picked from the source one at a time and packed into
//! destination words.
use vstd::prelude::*;
use crate::prim::{sqInt, UsqInt};
use crate::bitblt::memory::{long32At, stepped, valid_word, word_at, wrap_addr, Memory};
use crate::bitblt::state::{
    maskFor, shl32, shl_word, shr32, shr_word, width_mask, BitBlt, ALL_ONES, COLOR_MAP_NEW_STYLE,
};
use crate::bitblt::merge::lemma_ppw_bound;
use crate::bitblt::setup::{lemma_quotient_range, wordAddress};
use crate::bitblt::engine::{lemma_count_room, Picture};

verus! {

broadcast use crate::bitblt::memory::group_memory;

/// Where the next source pixel is: the address of its word, and how far the
/// word has to be shifted right to bring it down.
pub struct Reader {
    pub addr: int,
    pub shift: int,
}

/// A row of the general loop under way.
pub struct PixStrip {
    pub mem: Seq<u8>,
    pub count: int,
    pub reader: Reader,
}

impl BitBlt {
    // ---- Picking pixels ---------------------------------------------------

    /// The reader one pixel of `inc` bits further on.
    pub open spec fn next_reader(self, r: Reader, inc: int) -> Reader {
        let shift = r.shift + inc;
        if 0 <= shift < 32 {
            Reader { addr: r.addr, shift }
        } else if self.sourceMSB != 0 {
            Reader { addr: r.addr + 4, shift: shift + 32 }
        } else {
            Reader { addr: r.addr + 4, shift: shift - 32 }
        }
    }

    /// The reader `n` pixels further on.
    pub open spec fn reader_after(self, r: Reader, inc: int, n: int) -> Reader
        decreases n,
    {
        if n <= 0 {
            r
        } else {
            self.next_reader(self.reader_after(r, inc, n - 1), inc)
        }
    }

    /// The source pixel at the reader, through the color map.
    pub open spec fn mapped_at(self, m: Seq<u8>, r: Reader, flags: sqInt, source_mask: u32) -> u32 {
        self.map_pixel(
            m,
            (shr_word(word_at(m, r.addr), r.shift) & source_mask) as sqInt,
            flags,
        ) as u32
    }

    /// `n` source pixels mapped and packed into a word, the first at bit
    /// `at`, each `dest_inc` bits from the one before.
    pub open spec fn picked(
        self,
        m: Seq<u8>,
        r: Reader,
        flags: sqInt,
        source_mask: u32,
        dest_mask: u32,
        source_inc: int,
        at: int,
        dest_inc: int,
        n: int,
    ) -> u32
        decreases n,
    {
        if n <= 0 {
            0
        } else {
            self.picked(
                m,
                r,
                flags,
                source_mask,
                dest_mask,
                source_inc,
                at,
                dest_inc,
                n - 1,
            ) | shl_word(
                self.mapped_at(m, self.reader_after(r, source_inc, n - 1), flags, source_mask)
                    & dest_mask,
                at + (n - 1) * dest_inc,
            )
        }
    }

    /// The reader steps through whole pixels from left to right.
    pub open spec fn reader_ok(self, shift: int, inc: int) -> bool {
        &&& 0 <= shift < 32
        &&& self.sourceMSB != 0 ==> -32 <= inc <= 0
        &&& self.sourceMSB == 0 ==> 0 <= inc <= 32
    }

    /// The `n` words that the reader comes to exist.
    pub open spec fn reads_ok(self, size: nat, r: Reader, inc: int, n: int) -> bool {
        forall|j: int|
            0 <= j < n ==> 0 <= (#[trigger] self.reader_after(r, inc, j)).addr
                && self.reader_after(r, inc, j).addr + 4 <= size
    }

    /// The reader stays on pixels.
    pub(crate) proof fn lemma_reader_ok(self, r: Reader, inc: int, n: int)
        requires
            self.reader_ok(r.shift, inc),
        ensures
            self.reader_ok(self.reader_after(r, inc, n).shift, inc),
        decreases n,
    {
        if n > 0 {
            self.lemma_reader_ok(r, inc, n - 1);
        }
    }

    /// Two walks of the reader are one.
    pub(crate) proof fn lemma_reader_split(self, r: Reader, inc: int, a: int, b: int)
        requires
            0 <= a,
            0 <= b,
        ensures
            self.reader_after(self.reader_after(r, inc, a), inc, b) == self.reader_after(
                r,
                inc,
                a + b,
            ),
        decreases b,
    {
        if b > 0 {
            self.lemma_reader_split(r, inc, a, b - 1);
        }
    }

    /// The walk of a reader does not depend on the address it starts at.
    pub(crate) proof fn lemma_reader_moved(self, r: Reader, inc: int, n: int, by: int)
        ensures
            self.reader_after(Reader { addr: r.addr + by, shift: r.shift }, inc, n) == (Reader {
                addr: self.reader_after(r, inc, n).addr + by,
                shift: self.reader_after(r, inc, n).shift,
            }),
        decreases n,
    {
        if n > 0 {
            self.lemma_reader_moved(r, inc, n - 1, by);
        }
    }

    /// Picks `nPixels` source pixels, maps them and packs them into one
    /// destination word. Moves the reader on; leaves `dstBitShift` as it was.
    pub fn pickSourcePixels(
        &mut self,
        mem: &Memory,
        nPixels: sqInt,
        mapperFlags: sqInt,
        srcMask: u32,
        dstMask: u32,
        srcShiftInc: sqInt,
        dstShiftInc: sqInt,
    ) -> (r: u32)
        requires
            nPixels > 0,
            old(self).map_ok(mem@.len(), mapperFlags),
            old(self).reader_ok(old(self).srcBitShift as int, srcShiftInc as int),
            old(self).reads_ok(
                mem@.len(),
                Reader {
                    addr: old(self).sourceIndex as int,
                    shift: old(self).srcBitShift as int,
                },
                srcShiftInc as int,
                nPixels as int,
            ),
            sqInt::MIN <= old(self).dstBitShift + nPixels * dstShiftInc <= sqInt::MAX,
        ensures
            ({
                let start = Reader {
                    addr: old(self).sourceIndex as int,
                    shift: old(self).srcBitShift as int,
                };
                let end = old(self).reader_after(start, srcShiftInc as int, nPixels as int);
                &&& r == old(self).picked(
                    mem@,
                    start,
                    mapperFlags,
                    srcMask,
                    dstMask,
                    srcShiftInc as int,
                    old(self).dstBitShift as int,
                    dstShiftInc as int,
                    nPixels as int,
                )
                &&& *final(self) == (BitBlt {
                    sourceIndex: wrap_addr(end.addr),
                    srcBitShift: end.shift as sqInt,
                    ..*old(self)
                })
                &&& final(self).srcBitShift == end.shift
            }),
    {
        let ghost bb = *self;
        let ghost start = Reader {
            addr: self.sourceIndex as int,
            shift: self.srcBitShift as int,
        };
        let mut destWord: u32 = 0;
        let mut index: UsqInt = self.sourceIndex;
        let mut srcShift: sqInt = self.srcBitShift;
        let mut dstShift: sqInt = self.dstBitShift;
        let mut n: sqInt = 0;
        while n < nPixels
            invariant
                bb == *old(self),
                *self == bb,
                start == (Reader { addr: bb.sourceIndex as int, shift: bb.srcBitShift as int }),
                0 <= n <= nPixels,
                bb.map_ok(mem@.len(), mapperFlags),
                bb.reader_ok(srcShift as int, srcShiftInc as int),
                bb.reads_ok(mem@.len(), start, srcShiftInc as int, nPixels as int),
                sqInt::MIN <= bb.dstBitShift + nPixels * dstShiftInc <= sqInt::MAX,
                index == wrap_addr(bb.reader_after(start, srcShiftInc as int, n as int).addr),
                srcShift == bb.reader_after(start, srcShiftInc as int, n as int).shift,
                dstShift == bb.dstBitShift + n * dstShiftInc,
                destWord == bb.picked(
                    mem@,
                    start,
                    mapperFlags,
                    srcMask,
                    dstMask,
                    srcShiftInc as int,
                    bb.dstBitShift as int,
                    dstShiftInc as int,
                    n as int,
                ),
            decreases nPixels - n,
        {
            proof {
                mem.lemma_size();
                assert(0 <= bb.reader_after(start, srcShiftInc as int, n as int).addr);
                lemma_between(
                    bb.dstBitShift as int,
                    dstShiftInc as int,
                    n as int,
                    nPixels as int,
                );
            }
            let sourceWord: u32 = long32At(mem, index);
            let sourcePix: sqInt = (shr32(sourceWord, srcShift) & srcMask) as sqInt;
            let destPix: sqInt = self.mapPixelflags(mem, sourcePix, mapperFlags);
            destWord = destWord | shl32(destPix as u32 & dstMask, dstShift);
            dstShift = dstShift + dstShiftInc;
            srcShift = srcShift + srcShiftInc;
            if !(0 <= srcShift && srcShift < 32) {
                srcShift = if self.sourceMSB != 0 {
                    srcShift + 32
                } else {
                    srcShift - 32
                };
                index = stepped(index, 4);
            }
            n = n + 1;
        }
        self.srcBitShift = srcShift;
        self.sourceIndex = index;
        destWord
    }
}

impl BitBlt {
    // ---- The general loop -------------------------------------------------

    /// Source pixels in a word.
    pub open spec fn source_ppw(self) -> int {
        32int / self.sourceDepth as int
    }

    /// The position of pixel `x` in its source word, counted from the left.
    pub open spec fn source_place(self, x: int) -> int {
        (x as sqInt & ((self.source_ppw() - 1) as sqInt)) as int
    }

    /// The position of pixel `x` in its destination word, counted from the left.
    pub open spec fn dest_place(self, x: int) -> int {
        (x as sqInt & ((self.destPPW - 1) as sqInt)) as int
    }

    /// How far source pixels are apart, as a change of the reader's shift.
    pub open spec fn source_inc(self) -> int {
        if self.sourceMSB != 0 {
            -self.sourceDepth
        } else {
            self.sourceDepth as int
        }
    }

    /// How far destination pixels are apart, as a change of bit position.
    pub open spec fn dest_inc(self) -> int {
        if self.destMSB != 0 {
            -self.destDepth
        } else {
            self.destDepth as int
        }
    }

    /// The bit position of the destination pixel at place `p` of a word.
    pub open spec fn dest_bit(self, p: int) -> int {
        if self.destMSB != 0 {
            32 - self.destDepth - p * self.destDepth
        } else {
            p * self.destDepth
        }
    }

    /// The shift that brings the source pixel at place `p` of a word down.
    pub open spec fn source_bit(self, p: int) -> int {
        if self.sourceMSB != 0 {
            32 - self.sourceDepth - p * self.sourceDepth
        } else {
            p * self.sourceDepth
        }
    }

    /// The parts of the color map that pixels go through.
    pub open spec fn mapper_flags(self) -> sqInt {
        self.cmFlags & !COLOR_MAP_NEW_STYLE
    }

    /// Pixels in the first word of a row.
    pub open spec fn first_count(self) -> int {
        let n = self.pixels_from(self.dx as int);
        if self.bbW < n {
            self.bbW as int
        } else {
            n
        }
    }

    /// Pixels in word `k` of a row.
    pub open spec fn pix_count(self, k: int) -> int {
        if k == 0 {
            self.first_count()
        } else if k == self.row_words() - 1 {
            self.pixels_to(self.dx + self.bbW - 1)
        } else {
            self.destPPW as int
        }
    }

    /// Pixels in the words before word `k` of a row.
    pub open spec fn pix_before(self, k: int) -> int
        decreases k,
    {
        if k <= 0 {
            0
        } else {
            self.pix_before(k - 1) + self.pix_count(k - 1)
        }
    }

    /// The bit position of the first pixel of word `k` of a row.
    pub open spec fn pix_bit(self, k: int) -> int {
        self.dest_bit(
            if k == 0 {
                self.dest_place(self.dx as int)
            } else {
                0
            },
        )
    }

    /// How many source words a row uses up.
    pub open spec fn source_words_used(self) -> int {
        let first = self.source_ppw() - self.source_place(self.sx as int);
        if self.bbW < first {
            0
        } else {
            (self.bbW - first) / self.source_ppw() + 1
        }
    }

    /// The step from the end of a source row to the next.
    pub open spec fn pix_source_delta(self) -> int {
        self.sourcePitch - 4 * self.source_words_used()
    }

    /// The reader at the first pixel of row 0.
    pub open spec fn first_reader(self) -> Reader {
        Reader {
            addr: self.source_word_addr(self.sx as int, self.sy as int),
            shift: self.source_bit(self.source_place(self.sx as int)),
        }
    }

    /// How far the reader gets from the start of one row to the start of the
    /// next.
    pub open spec fn pix_row_step(self) -> int {
        self.reader_after(
            self.first_reader(),
            self.source_inc(),
            self.pix_before(self.row_words()),
        ).addr - self.first_reader().addr + self.pix_source_delta()
    }

    /// The reader at the first pixel of row `i`.
    pub open spec fn row_reader(self, i: int) -> Reader {
        Reader {
            addr: self.first_reader().addr + i * self.pix_row_step(),
            shift: self.first_reader().shift,
        }
    }

    /// One word of row `i` made from source pixels.
    pub open spec fn pix_word(self, h: u32, q: PixStrip, i: int, k: int) -> PixStrip {
        let w = self.picked(
            q.mem,
            q.reader,
            self.mapper_flags(),
            width_mask(self.sourceDepth as int),
            width_mask(self.destDepth as int),
            self.source_inc(),
            self.pix_bit(k),
            self.dest_inc(),
            self.pix_count(k),
        );
        let p = self.store_masked(
            self.word_mask(k),
            Picture { mem: q.mem, count: q.count },
            self.forward_word(i, k),
            w & h,
        );
        PixStrip {
            mem: p.mem,
            count: p.count,
            reader: self.reader_after(q.reader, self.source_inc(), self.pix_count(k)),
        }
    }

    /// The first `k` words of row `i`.
    pub open spec fn pix_words(self, h: u32, p: Picture, i: int, k: int) -> PixStrip
        decreases k,
    {
        if k <= 0 {
            PixStrip { mem: p.mem, count: p.count, reader: self.row_reader(i) }
        } else {
            self.pix_word(h, self.pix_words(h, p, i, k - 1), i, k - 1)
        }
    }

    /// The first `i` rows.
    pub open spec fn pix_rows(self, p: Picture, i: int) -> Picture
        decreases i,
    {
        if i <= 0 {
            p
        } else {
            let q = self.pix_rows(p, i - 1);
            let strip = self.pix_words(
                self.halftone_at(q.mem, self.dy + i - 1),
                q,
                i - 1,
                self.row_words(),
            );
            Picture { mem: strip.mem, count: strip.count }
        }
    }

    /// Every source word that the general loop reads exists.
    pub open spec fn pix_reads_ok(self, size: nat) -> bool {
        forall|i: int, t: int|
            0 <= i < self.bbH && 0 <= t < self.pix_before(self.row_words()) ==> 0
                <= (#[trigger] self.reader_after(
                self.row_reader(i),
                self.source_inc(),
                t,
            )).addr && self.reader_after(self.row_reader(i), self.source_inc(), t).addr + 4 <= size
    }

    /// The general loop can run on a memory of this size.
    pub open spec fn pix_ok(self, size: nat, count: int) -> bool {
        &&& self.merge_ok(size)
        &&& 1 <= self.sourceDepth <= 32
        &&& 1 <= self.nWords <= 0x1_0000_0000
        &&& 1 <= self.bbW
        &&& self.map_ok(size, self.mapper_flags())
        &&& self.halftone_ok(size)
        &&& !self.noHalftone ==> 0 <= self.dy
        &&& self.forward_rows_ok(size)
        &&& self.pix_reads_ok(size)
        &&& self.count_fits(count, self.bbH * self.row_words())
    }

    /// What the general loop leaves in the registers.
    pub open spec fn pix_mapped(self, p: Picture) -> BitBlt {
        let set = BitBlt {
            sourcePPW: self.source_ppw() as sqInt,
            sourceDelta: self.pix_source_delta() as sqInt,
            ..self
        };
        if self.bbH <= 0 {
            BitBlt { sourceIndex: wrap_addr(self.first_reader().addr), ..set }
        } else {
            BitBlt {
                bitCount: p.count as sqInt,
                destMask: ALL_ONES,
                destIndex: wrap_addr(self.forward_row(self.bbH as int)),
                sourceIndex: wrap_addr(self.row_reader(self.bbH as int).addr),
                srcBitShift: self.reader_after(
                    self.first_reader(),
                    self.source_inc(),
                    self.pix_before(self.row_words()),
                ).shift as sqInt,
                dstBitShift: self.dest_bit(0) as sqInt,
                ..set
            }
        }
    }

    /// A row keeps the size of the memory, adds a bounded amount to the count
    /// and moves the reader over the pixels of its words.
    pub(crate) proof fn lemma_pix_words(self, h: u32, p: Picture, i: int, k: int)
        requires
            self.dest_wf(),
            1 <= self.bbW,
            0 <= k,
        ensures
            self.pix_words(h, p, i, k).mem.len() == p.mem.len(),
            p.count <= self.pix_words(h, p, i, k).count <= p.count + k * self.count_step(),
            self.pix_words(h, p, i, k).reader == self.reader_after(
                self.row_reader(i),
                self.source_inc(),
                self.pix_before(k),
            ),
            0 <= self.pix_before(k),
        decreases k,
    {
        if k > 0 {
            self.lemma_pix_words(h, p, i, k - 1);
            self.lemma_pix_count(k - 1);
            let q = self.pix_words(h, p, i, k - 1);
            let w = self.picked(
                q.mem,
                q.reader,
                self.mapper_flags(),
                width_mask(self.sourceDepth as int),
                width_mask(self.destDepth as int),
                self.source_inc(),
                self.pix_bit(k - 1),
                self.dest_inc(),
                self.pix_count(k - 1),
            );
            self.lemma_store_masked(
                self.word_mask(k - 1),
                Picture { mem: q.mem, count: q.count },
                self.forward_word(i, k - 1),
                w & h,
            );
            self.lemma_reader_split(
                self.row_reader(i),
                self.source_inc(),
                self.pix_before(k - 1),
                self.pix_count(k - 1),
            );
            assert(k * self.count_step() == (k - 1) * self.count_step() + self.count_step())
                by (nonlinear_arith);
        }
    }

    /// Rows keep the size of the memory and add a bounded amount to the count.
    pub(crate) proof fn lemma_pix_rows(self, p: Picture, i: int)
        requires
            self.dest_wf(),
            1 <= self.bbW,
            0 <= i,
        ensures
            self.pix_rows(p, i).mem.len() == p.mem.len(),
            p.count <= self.pix_rows(p, i).count <= p.count + i * self.row_words()
                * self.count_step(),
        decreases i,
    {
        if i > 0 {
            self.lemma_pix_rows(p, i - 1);
            let q = self.pix_rows(p, i - 1);
            self.lemma_pix_words(
                self.halftone_at(q.mem, self.dy + i - 1),
                q,
                i - 1,
                self.row_words(),
            );
            assert(i * self.row_words() * self.count_step() == (i - 1) * self.row_words()
                * self.count_step() + self.row_words() * self.count_step()) by (nonlinear_arith);
        }
    }

    /// Every word of a row takes at least one pixel and at most as many as fit.
    pub(crate) proof fn lemma_pix_count(self, k: int)
        requires
            self.dest_wf(),
            1 <= self.bbW,
        ensures
            1 <= self.pix_count(k) <= self.destPPW <= 32,
            0 <= self.dest_place(self.dx as int) < self.destPPW,
            k == 0 ==> self.pix_count(k) + self.dest_place(self.dx as int) <= self.destPPW,
    {
        lemma_ppw_bound(self);
        lemma_place(self.dx as sqInt, (self.destPPW - 1) as sqInt);
        lemma_place((self.dx + self.bbW - 1) as sqInt, (self.destPPW - 1) as sqInt);
    }

    /// The bits of a word's pixels lie within the word.
    pub(crate) proof fn lemma_dest_bits(self, p: int, n: int)
        requires
            self.dest_wf(),
            0 <= p,
            1 <= n,
            p + n <= self.destPPW,
        ensures
            0 <= self.dest_bit(p) <= 32,
            -64 <= self.dest_bit(p) + n * self.dest_inc() <= 64,
            0 <= p * self.destDepth <= 32,
    {
        lemma_ppw_bound(self);
        let d = self.destDepth as int;
        assert(0 <= p * d && 0 <= n * d && p * d + n * d <= self.destPPW * d && d <= n * d && n * (
        -d) == -(n * d)) by (nonlinear_arith)
            requires
                0 <= p,
                1 <= n,
                1 <= d,
                p + n <= self.destPPW,
        ;
    }

    /// The first reader is on a pixel.
    proof fn lemma_first_reader(self)
        requires
            1 <= self.sourceDepth <= 32,
        ensures
            self.reader_ok(self.first_reader().shift, self.source_inc()),
            0 <= self.source_place(self.sx as int) < self.source_ppw() <= 32,
            0 <= self.source_place(self.sx as int) * self.sourceDepth <= 32 - self.sourceDepth,
    {
        let d = self.sourceDepth as int;
        assert(1 <= 32int / d <= 32 && (32int / d) * d <= 32) by (nonlinear_arith)
            requires
                1 <= d <= 32,
        ;
        lemma_place(self.sx as sqInt, (self.source_ppw() - 1) as sqInt);
        let p = self.source_place(self.sx as int);
        assert(0 <= p * d && p * d + d <= (32int / d) * d) by (nonlinear_arith)
            requires
                0 <= p,
                p + 1 <= 32int / d,
                1 <= d,
        ;
    }
}

impl BitBlt {
    /// Picking depends on none of the registers that the copy loops step
    /// through.
    pub(crate) proof fn lemma_reader_steady(self, bb: BitBlt, r: Reader, inc: int, n: int)
        requires
            self.steady() == bb.steady(),
        ensures
            self.reader_after(r, inc, n) == bb.reader_after(r, inc, n),
        decreases n,
    {
        assert(self.steady().sourceMSB == bb.steady().sourceMSB);
        if n > 0 {
            self.lemma_reader_steady(bb, r, inc, n - 1);
        }
    }

    /// The color map depends on none of the registers that the copy loops step
    /// through.
    pub(crate) proof fn lemma_map_steady(self, bb: BitBlt, m: Seq<u8>, pixel: sqInt, flags: sqInt)
        requires
            self.steady() == bb.steady(),
        ensures
            self.map_pixel(m, pixel, flags) == bb.map_pixel(m, pixel, flags),
            forall|size: nat| #[trigger] self.map_ok(size, flags) == bb.map_ok(size, flags),
    {
        assert(self.steady().cmMaskTable == bb.steady().cmMaskTable);
        assert(self.steady().cmShiftTable == bb.steady().cmShiftTable);
        assert(self.steady().cmLocalMasks == bb.steady().cmLocalMasks);
        assert(self.steady().cmLocalShifts == bb.steady().cmLocalShifts);
    }

    /// Picking depends on none of the registers that the copy loops step
    /// through.
    pub(crate) proof fn lemma_picked_steady(
        self,
        bb: BitBlt,
        m: Seq<u8>,
        r: Reader,
        flags: sqInt,
        source_mask: u32,
        dest_mask: u32,
        source_inc: int,
        at: int,
        dest_inc: int,
        n: int,
    )
        requires
            self.steady() == bb.steady(),
        ensures
            self.picked(m, r, flags, source_mask, dest_mask, source_inc, at, dest_inc, n)
                == bb.picked(m, r, flags, source_mask, dest_mask, source_inc, at, dest_inc, n),
        decreases n,
    {
        if n > 0 {
            self.lemma_picked_steady(
                bb,
                m,
                r,
                flags,
                source_mask,
                dest_mask,
                source_inc,
                at,
                dest_inc,
                n - 1,
            );
            self.lemma_reader_steady(bb, r, source_inc, n - 1);
            let q = bb.reader_after(r, source_inc, n - 1);
            self.lemma_map_steady(
                bb,
                m,
                (shr_word(word_at(m, q.addr), q.shift) & source_mask) as sqInt,
                flags,
            );
        }
    }

    /// Later words of a row are further along.
    proof fn lemma_pix_before_grows(self, a: int, b: int)
        requires
            self.dest_wf(),
            1 <= self.bbW,
            0 <= a <= b,
        ensures
            self.pix_before(a) <= self.pix_before(b),
        decreases b - a,
    {
        if a < b {
            self.lemma_pix_count(b - 1);
            self.lemma_pix_before_grows(a, b - 1);
        }
    }

    /// Makes word `k` of row `i`: picks its pixels and merges them in.
    fn pixWord(
        &mut self,
        mem: &mut Memory,
        halftoneWord: u32,
        mask: u32,
        destIndex: UsqInt,
        nPix: sqInt,
        dstShift: sqInt,
        srcShiftInc: sqInt,
        dstShiftInc: sqInt,
        Ghost(bb): Ghost<BitBlt>,
        Ghost(q): Ghost<PixStrip>,
        Ghost(i): Ghost<int>,
        Ghost(k): Ghost<int>,
    )
        requires
            bb.merge_ok(old(mem)@.len()),
            1 <= bb.sourceDepth <= 32,
            1 <= bb.bbW,
            bb.map_ok(old(mem)@.len(), bb.mapper_flags()),
            old(self).steady() == bb.steady(),
            old(self).bitCount == q.count,
            old(mem)@ == q.mem,
            old(self).sourceIndex == wrap_addr(q.reader.addr),
            old(self).srcBitShift == q.reader.shift,
            bb.reader_ok(q.reader.shift, bb.source_inc()),
            bb.reads_ok(old(mem)@.len(), q.reader, bb.source_inc(), bb.pix_count(k)),
            q.count + bb.count_step() <= sqInt::MAX,
            mask == bb.word_mask(k),
            destIndex == bb.forward_word(i, k),
            valid_word(old(mem)@, bb.forward_word(i, k)),
            nPix == bb.pix_count(k),
            dstShift == bb.pix_bit(k),
            srcShiftInc == bb.source_inc(),
            dstShiftInc == bb.dest_inc(),
        ensures
            ({
                let after = bb.pix_word(halftoneWord, q, i, k);
                &&& final(mem)@ == after.mem
                &&& final(mem)@.len() == old(mem)@.len()
                &&& final(self).bitCount == after.count
                &&& final(self).sourceIndex == wrap_addr(after.reader.addr)
                &&& final(self).srcBitShift == after.reader.shift
                &&& final(self).steady() == bb.steady()
                &&& *final(self) == (BitBlt {
                    bitCount: final(self).bitCount,
                    destMask: mask,
                    sourceIndex: final(self).sourceIndex,
                    srcBitShift: final(self).srcBitShift,
                    dstBitShift: dstShift,
                    ..*old(self)
                })
            }),
    {
        let ghost before = *self;
        let sourceMask: u32 = maskFor(self.sourceDepth as sqInt);
        let destMask: u32 = maskFor(self.destDepth as sqInt);
        let flags: sqInt = self.cmFlags & !COLOR_MAP_NEW_STYLE;
        self.dstBitShift = dstShift;
        proof {
            mem.lemma_size();
            bb.lemma_pix_count(k);
            bb.lemma_dest_bits(
                if k == 0 {
                    bb.dest_place(bb.dx as int)
                } else {
                    0
                },
                bb.pix_count(k),
            );
            assert(0 <= bb.reader_after(q.reader, bb.source_inc(), 0).addr);
            self.lemma_map_steady(bb, mem@, 0, flags);
            assert forall|j: int| 0 <= j < nPix implies 0 <= (#[trigger] self.reader_after(
                q.reader,
                bb.source_inc(),
                j,
            )).addr && self.reader_after(q.reader, bb.source_inc(), j).addr + 4 <= mem@.len() by {
                self.lemma_reader_steady(bb, q.reader, bb.source_inc(), j);
                assert(0 <= bb.reader_after(q.reader, bb.source_inc(), j).addr);
            }
            self.lemma_reader_steady(bb, q.reader, bb.source_inc(), nPix as int);
            self.lemma_picked_steady(
                bb,
                mem@,
                q.reader,
                flags,
                sourceMask,
                destMask,
                bb.source_inc(),
                dstShift as int,
                bb.dest_inc(),
                nPix as int,
            );
        }
        let skewWord: u32 = self.pickSourcePixels(
            mem,
            nPix,
            flags,
            sourceMask,
            destMask,
            srcShiftInc,
            dstShiftInc,
        );
        proof {
            assert(self.steady() == bb.steady());
            self.lemma_store_steady(
                bb,
                mask,
                Picture { mem: mem@, count: self.bitCount as int },
                destIndex as int,
                skewWord & halftoneWord,
            );
        }
        self.storeMasked(mem, mask, destIndex, skewWord & halftoneWord);
    }
}

impl BitBlt {
    /// The reader at the start of the next row.
    proof fn lemma_row_reader(self, i: int)
        ensures
            self.reader_after(
                self.row_reader(i),
                self.source_inc(),
                self.pix_before(self.row_words()),
            ).addr + self.pix_source_delta() == self.row_reader(i + 1).addr,
            self.reader_after(
                self.row_reader(i),
                self.source_inc(),
                self.pix_before(self.row_words()),
            ).shift == self.reader_after(
                self.first_reader(),
                self.source_inc(),
                self.pix_before(self.row_words()),
            ).shift,
            self.row_reader(0) == self.first_reader(),
    {
        self.lemma_reader_moved(
            self.first_reader(),
            self.source_inc(),
            self.pix_before(self.row_words()),
            i * self.pix_row_step(),
        );
        assert((i + 1) * self.pix_row_step() == i * self.pix_row_step() + self.pix_row_step())
            by (nonlinear_arith);
    }

    /// Makes row `i`, from the reader and the destination address at its start.
    fn pixRow(
        &mut self,
        mem: &mut Memory,
        halftoneWord: u32,
        destIndex: UsqInt,
        Ghost(bb): Ghost<BitBlt>,
        Ghost(i): Ghost<int>,
    ) -> (r: UsqInt)
        requires
            bb.pix_ok(old(mem)@.len(), bb.bitCount as int),
            0 <= i < bb.bbH,
            old(self).steady() == bb.steady(),
            *old(self) == (BitBlt {
                bitCount: old(self).bitCount,
                destMask: old(self).destMask,
                sourceIndex: old(self).sourceIndex,
                srcBitShift: old(self).srcBitShift,
                dstBitShift: old(self).dstBitShift,
                ..bb
            }),
            old(self).sourceIndex == wrap_addr(bb.row_reader(i).addr),
            destIndex == wrap_addr(bb.forward_row(i)),
            old(self).bitCount + bb.row_words() * bb.count_step() <= sqInt::MAX,
        ensures
            ({
                let strip = bb.pix_words(
                    halftoneWord,
                    Picture { mem: old(mem)@, count: old(self).bitCount as int },
                    i,
                    bb.row_words(),
                );
                &&& final(mem)@ == strip.mem
                &&& final(mem)@.len() == old(mem)@.len()
                &&& final(self).bitCount == strip.count
                &&& final(self).sourceIndex == wrap_addr(strip.reader.addr)
                &&& final(self).srcBitShift == strip.reader.shift
                &&& final(self).dstBitShift == bb.dest_bit(0)
                &&& final(self).steady() == bb.steady()
                &&& r == wrap_addr(bb.forward_word(i, bb.row_words()))
                &&& *final(self) == (BitBlt {
                    bitCount: final(self).bitCount,
                    destMask: ALL_ONES,
                    sourceIndex: final(self).sourceIndex,
                    srcBitShift: final(self).srcBitShift,
                    dstBitShift: final(self).dstBitShift,
                    ..bb
                })
            }),
    {
        let ghost p = Picture { mem: mem@, count: self.bitCount as int };
        let ppw: sqInt = self.destPPW;
        let depth: sqInt = self.destDepth as sqInt;
        let x0: sqInt = self.dx as sqInt;
        let x1: sqInt = (self.dx as sqInt + self.bbW as sqInt) - 1;
        let sourceDepth: sqInt = self.sourceDepth as sqInt;
        proof {
            lemma_ppw_bound(bb);
            lemma_place(x0, (ppw - 1) as sqInt);
            lemma_place(x1, (ppw - 1) as sqInt);
            bb.lemma_pix_count(0);
            bb.lemma_dest_bits(bb.dest_place(bb.dx as int), bb.pix_count(0));
            bb.lemma_first_reader();
            assert(1 <= 32int / (sourceDepth as int) <= 32) by (nonlinear_arith)
                requires
                    1 <= sourceDepth <= 32,
            ;
        }
        let place: sqInt = x0 & (ppw - 1);
        let mut startBits: sqInt = ppw - place;
        if (self.bbW as sqInt) < startBits {
            startBits = self.bbW as sqInt;
        }
        let endBits: sqInt = (x1 & (ppw - 1)) + 1;
        let sourcePlace: sqInt = self.sx as sqInt & (32 / sourceDepth - 1);
        let mut srcShift: sqInt = sourcePlace * sourceDepth;
        let mut srcShiftInc: sqInt = sourceDepth;
        if self.sourceMSB != 0 {
            srcShift = (32 - sourceDepth) - srcShift;
            srcShiftInc = -srcShiftInc;
        }
        let mut dstShift: sqInt = place * depth;
        let mut dstShiftInc: sqInt = depth;
        let mut dstShiftLeft: sqInt = 0;
        if self.destMSB != 0 {
            dstShift = (32 - depth) - dstShift;
            dstShiftInc = -dstShiftInc;
            dstShiftLeft = 32 - depth;
        }
        self.srcBitShift = srcShift;
        assert(0 * depth == 0);
        let words: sqInt = self.nWords;
        let mut index: UsqInt = destIndex;
        let mut k: sqInt = 0;
        while k < words
            invariant
                p == (Picture { mem: old(mem)@, count: old(self).bitCount as int }),
                bb.pix_ok(old(mem)@.len(), bb.bitCount as int),
                0 <= i < bb.bbH,
                words == bb.row_words(),
                words == bb.nWords,
                ppw == bb.destPPW,
                startBits == bb.first_count(),
                endBits == bb.pixels_to(bb.dx + bb.bbW - 1),
                dstShift == bb.pix_bit(0),
                dstShiftLeft == bb.dest_bit(0),
                srcShiftInc == bb.source_inc(),
                dstShiftInc == bb.dest_inc(),
                bb.reader_ok(bb.first_reader().shift, bb.source_inc()),
                p.count + bb.row_words() * bb.count_step() <= sqInt::MAX,
                0 <= k <= words,
                index == wrap_addr(bb.forward_word(i, k as int)),
                mem@.len() == old(mem)@.len(),
                mem@ == bb.pix_words(halftoneWord, p, i, k as int).mem,
                self.bitCount == bb.pix_words(halftoneWord, p, i, k as int).count,
                self.sourceIndex == wrap_addr(
                    bb.pix_words(halftoneWord, p, i, k as int).reader.addr,
                ),
                self.srcBitShift == bb.pix_words(halftoneWord, p, i, k as int).reader.shift,
                self.steady() == bb.steady(),
                *self == (BitBlt {
                    bitCount: self.bitCount,
                    destMask: self.destMask,
                    sourceIndex: self.sourceIndex,
                    srcBitShift: self.srcBitShift,
                    dstBitShift: self.dstBitShift,
                    ..bb
                }),
            decreases words - k,
        {
            let ghost q = bb.pix_words(halftoneWord, p, i, k as int);
            let mask: u32 = if k == 0 {
                self.mask1
            } else if k == words - 1 {
                self.mask2
            } else {
                ALL_ONES
            };
            let nPix: sqInt = if k == 0 {
                startBits
            } else if k == words - 1 {
                endBits
            } else {
                ppw
            };
            let at: sqInt = if k == 0 {
                dstShift
            } else {
                dstShiftLeft
            };
            proof {
                mem.lemma_size();
                bb.lemma_pix_words(halftoneWord, p, i, k as int);
                bb.lemma_pix_count(k as int);
                bb.lemma_reader_ok(bb.row_reader(i), bb.source_inc(), bb.pix_before(k as int));
                assert(0 <= bb.forward_word(i, k as int));
                bb.lemma_pix_before_grows(k + 1, bb.row_words());
                assert(bb.pix_before(k + 1) == bb.pix_before(k as int) + bb.pix_count(k as int));
                assert forall|j: int| 0 <= j < bb.pix_count(k as int) implies 0
                    <= (#[trigger] bb.reader_after(q.reader, bb.source_inc(), j)).addr
                    && bb.reader_after(q.reader, bb.source_inc(), j).addr + 4 <= mem@.len() by {
                    bb.lemma_reader_split(
                        bb.row_reader(i),
                        bb.source_inc(),
                        bb.pix_before(k as int),
                        j,
                    );
                    assert(0 <= bb.reader_after(
                        bb.row_reader(i),
                        bb.source_inc(),
                        bb.pix_before(k as int) + j,
                    ).addr);
                }
                assert(k * bb.count_step() + bb.count_step() <= words * bb.count_step())
                    by (nonlinear_arith)
                    requires
                        0 <= k < words,
                        0 <= bb.count_step(),
                ;
            }
            self.pixWord(
                mem,
                halftoneWord,
                mask,
                index,
                nPix,
                at,
                srcShiftInc,
                dstShiftInc,
                Ghost(bb),
                Ghost(q),
                Ghost(i),
                Ghost(k as int),
            );
            index = stepped(index, 4);
            k = k + 1;
        }
        self.destMask = ALL_ONES;
        self.dstBitShift = dstShiftLeft;
        index
    }

    /// The blit between depths, through a color map or between bit orders.
    pub fn copyLoopPixMap(&mut self, mem: &mut Memory)
        requires
            old(self).pix_ok(old(mem)@.len(), old(self).bitCount as int),
        ensures
            ({
                let p = old(self).pix_rows(
                    Picture { mem: old(mem)@, count: old(self).bitCount as int },
                    old(self).bbH as int,
                );
                &&& final(mem)@ == p.mem
                &&& final(mem)@.len() == old(mem)@.len()
                &&& *final(self) == old(self).pix_mapped(p)
            }),
    {
        let ghost bb = *self;
        let ghost start = Picture { mem: mem@, count: self.bitCount as int };
        let height: sqInt = self.bbH as sqInt;
        let depth: sqInt = self.sourceDepth as sqInt;
        proof {
            bb.lemma_first_reader();
            assert(1 <= 32int / (depth as int) <= 32) by (nonlinear_arith)
                requires
                    1 <= depth <= 32,
            ;
        }
        let sourcePPW: sqInt = 32 / depth;
        let scrStartBits: sqInt = sourcePPW - (self.sx as sqInt & (sourcePPW - 1));
        let nSourceIncs: sqInt = if (self.bbW as sqInt) < scrStartBits {
            0
        } else {
            proof {
                lemma_quotient_range((self.bbW - scrStartBits) as int, sourcePPW as int);
            }
            (self.bbW as sqInt - scrStartBits) / sourcePPW + 1
        };
        let sourceDelta: sqInt = self.sourcePitch as sqInt - nSourceIncs * 4;
        self.sourceIndex = wordAddress(
            self.sourceBits,
            self.sy,
            self.sourcePitch,
            self.sx,
            sourcePPW,
        );
        let mut index: UsqInt = self.destIndex;
        let mut i: sqInt = 0;
        proof {
            bb.lemma_row_reader(0);
            assert(0 * (4 * bb.row_words() + bb.destDelta) == 0);
        }
        while i < height
            invariant
                bb == *old(self),
                start == (Picture { mem: old(mem)@, count: bb.bitCount as int }),
                height == bb.bbH,
                sourceDelta == bb.pix_source_delta(),
                bb.pix_ok(old(mem)@.len(), bb.bitCount as int),
                0 <= i,
                i <= height || i == 0,
                *self == (BitBlt {
                    bitCount: self.bitCount,
                    destMask: self.destMask,
                    sourceIndex: self.sourceIndex,
                    srcBitShift: self.srcBitShift,
                    dstBitShift: self.dstBitShift,
                    ..bb
                }),
                self.steady() == bb.steady(),
                i > 0 ==> self.destMask == ALL_ONES,
                i == 0 ==> self.destMask == bb.destMask,
                i > 0 ==> self.dstBitShift == bb.dest_bit(0),
                i == 0 ==> self.dstBitShift == bb.dstBitShift,
                i > 0 ==> self.srcBitShift == bb.reader_after(
                    bb.first_reader(),
                    bb.source_inc(),
                    bb.pix_before(bb.row_words()),
                ).shift,
                i == 0 ==> self.srcBitShift == bb.srcBitShift,
                self.sourceIndex == wrap_addr(bb.row_reader(i as int).addr),
                index == wrap_addr(bb.forward_row(i as int)),
                mem@.len() == old(mem)@.len(),
                mem@ == bb.pix_rows(start, i as int).mem,
                self.bitCount == bb.pix_rows(start, i as int).count,
            decreases height - i,
        {
            let halftone: u32 = self.halftoneWord(mem, self.dy as sqInt + i);
            let ghost p = bb.pix_rows(start, i as int);
            proof {
                bb.lemma_pix_rows(start, i as int);
                lemma_count_room(
                    i as int,
                    bb.bbH as int,
                    bb.row_words(),
                    bb.row_words() - 1,
                    bb.count_step(),
                );
                assert((bb.row_words() - 1) * bb.count_step() + bb.count_step() == bb.row_words()
                    * bb.count_step()) by (nonlinear_arith);
                assert(halftone == bb.halftone_at(p.mem, bb.dy + i));
                bb.lemma_pix_words(halftone, p, i as int, bb.row_words());
                bb.lemma_row_reader(i as int);
                bb.lemma_forward_row(i as int);
            }
            index = self.pixRow(mem, halftone, index, Ghost(bb), Ghost(i as int));
            self.sourceIndex = stepped(self.sourceIndex, sourceDelta);
            index = stepped(index, self.destDelta);
            i = i + 1;
        }
        self.sourcePPW = sourcePPW;
        self.sourceDelta = sourceDelta;
        self.destIndex = index;
    }
}

pub(crate) proof fn lemma_place(x: sqInt, m: sqInt)
    by (bit_vector)
    requires
        0 <= m,
    ensures
        0 <= (x & m),
        (x & m) <= m,
{
}

/// A value that moves evenly stays between its ends.
pub(crate) proof fn lemma_between(a: int, inc: int, n: int, all: int)
    requires
        0 <= n < all,
        sqInt::MIN <= a <= sqInt::MAX,
        sqInt::MIN <= a + all * inc <= sqInt::MAX,
    ensures
        (n + 1) * inc == n * inc + inc,
        sqInt::MIN <= a + n * inc + inc <= sqInt::MAX,
{
    assert((n + 1) * inc == n * inc + inc) by (nonlinear_arith);
    assert(inc >= 0 ==> 0 <= (n + 1) * inc <= all * inc) by (nonlinear_arith)
        requires
            0 <= n < all,
    ;
    assert(inc <= 0 ==> all * inc <= (n + 1) * inc <= 0) by (nonlinear_arith)
        requires
            0 <= n < all,
    ;
}

} // verus!
