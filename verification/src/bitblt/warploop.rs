//! The warp loop: rows of the destination as walks across the source.
use vstd::prelude::*;
use crate::prim::{sqInt, UsqInt};
use crate::bitblt::memory::{stepped, valid_word, wrap_addr, Memory};
use crate::bitblt::state::{
    width_mask, BitBlt, ALL_ONES, COLOR_MAP_NEW_STYLE, FIXED_PT1,
};
use crate::bitblt::merge::lemma_ppw_bound;
use crate::bitblt::engine::{lemma_count_room, Picture};
use crate::bitblt::pixmap::lemma_place;
use crate::bitblt::warp::{
    deltaFromtonSteps, walked, warp_delta, Sample, Square, Sums, Walk, STEP_LIMIT,
    WARP_LIMIT,
};

verus! {

broadcast use crate::bitblt::memory::group_memory;

/// The two ends of a row in the source, in fixed point; or steps of them.
pub struct Quad {
    pub ax: int,
    pub ay: int,
    pub bx: int,
    pub by: int,
}

impl Quad {
    /// The ends after `i` steps.
    pub open spec fn stepped(self, d: Quad, i: int) -> Quad {
        Quad {
            ax: self.ax + i * d.ax,
            ay: self.ay + i * d.ay,
            bx: self.bx + i * d.bx,
            by: self.by + i * d.by,
        }
    }

    /// All four coordinates are within the limit.
    pub open spec fn in_limit(self) -> bool {
        &&& -WARP_LIMIT <= self.ax <= WARP_LIMIT
        &&& -WARP_LIMIT <= self.ay <= WARP_LIMIT
        &&& -WARP_LIMIT <= self.bx <= WARP_LIMIT
        &&& -WARP_LIMIT <= self.by <= WARP_LIMIT
    }
}

/// What a warp is told besides the registers.
pub struct Warp {
    /// The ends of the first row of the unclipped destination.
    pub corner: Quad,
    /// The steps from row to row.
    pub step: Quad,
    /// Source pixels along the side of the square that a destination pixel is
    /// averaged over; 1 for no smoothing.
    pub smoothing: int,
    /// Address of the words that stand for source pixels of under 16 bits.
    pub map: int,
}

/// A warp under way.
pub struct WarpStrip {
    pub mem: Seq<u8>,
    pub count: int,
    pub sx: i32,
    pub sy: i32,
    pub shift: sqInt,
}

impl BitBlt {
    /// Steps along a row of the unclipped destination.
    pub open spec fn warp_steps(self) -> int {
        if self.width - 1 <= 0 {
            1
        } else {
            self.width - 1
        }
    }

    /// Rows that clipping took off the top.
    pub open spec fn rows_skipped(self) -> int {
        if self.destY < self.clipY {
            self.clipY - self.destY
        } else {
            0
        }
    }

    /// Columns that clipping took off the left.
    pub open spec fn columns_skipped(self) -> int {
        if self.destX < self.clipX {
            self.clipX - self.destX
        } else {
            0
        }
    }

    /// The ends of row `i`.
    pub open spec fn row_quad(self, w: Warp, i: int) -> Quad {
        w.corner.stepped(w.step, self.rows_skipped()).stepped(w.step, i)
    }

    /// The step along a row from `a` to `b`.
    pub open spec fn row_delta(self, a: int, b: int) -> sqInt {
        warp_delta(a, b, self.warp_steps()) as sqInt
    }

    /// Where the walk along a row from `a` to `b` starts. A walk that goes down
    /// is laid out from its far end.
    pub open spec fn row_start(self, a: int, b: int) -> i32 {
        let d = self.row_delta(a, b);
        let s = (if d >= 0 {
            a
        } else {
            b - self.warp_steps() * d
        }) as i32;
        if self.destX < self.clipX {
            (s + (self.clipX - self.destX) * d) as i32
        } else {
            s
        }
    }

    /// What one step of a walk gives.
    pub open spec fn warp_sample(
        self,
        m: Seq<u8>,
        w: Warp,
        xd: sqInt,
        yd: sqInt,
        x: i32,
        y: i32,
        shift: sqInt,
    ) -> Sample {
        if w.smoothing == 1 {
            self.plain_sample(m, self.mapper_flags(), x, y, shift)
        } else {
            self.smooth_sample(
                m,
                BitBlt::square(
                    w.smoothing,
                    w.map,
                    xd as int,
                    yd as int,
                    w.step.ax,
                    w.step.ay,
                ),
                x,
                y,
                shift,
            )
        }
    }

    /// The steps of the walk that fall into word `k` of a row.
    pub open spec fn warp_walk(self, w: Warp, xd: sqInt, yd: sqInt, q: WarpStrip, k: int) -> Walk {
        walked(
            |x: i32, y: i32, s: sqInt| self.warp_sample(q.mem, w, xd, yd, x, y, s),
            Walk { word: 0, sx: q.sx, sy: q.sy, shift: q.shift },
            xd,
            yd,
            width_mask(self.destDepth as int),
            self.pix_bit(k),
            self.dest_inc(),
            self.pix_count(k),
        )
    }

    /// Word `k` of row `i`.
    pub open spec fn warp_word(
        self,
        w: Warp,
        xd: sqInt,
        yd: sqInt,
        h: u32,
        q: WarpStrip,
        i: int,
        k: int,
    ) -> WarpStrip {
        let walk = self.warp_walk(w, xd, yd, q, k);
        let p = self.store_masked(
            self.word_mask(k),
            Picture { mem: q.mem, count: q.count },
            self.forward_word(i, k),
            walk.word & h,
        );
        WarpStrip { mem: p.mem, count: p.count, sx: walk.sx, sy: walk.sy, shift: walk.shift }
    }

    /// The first `k` words of row `i`.
    pub open spec fn warp_words(
        self,
        w: Warp,
        xd: sqInt,
        yd: sqInt,
        h: u32,
        q: WarpStrip,
        i: int,
        k: int,
    ) -> WarpStrip
        decreases k,
    {
        if k <= 0 {
            q
        } else {
            self.warp_word(w, xd, yd, h, self.warp_words(w, xd, yd, h, q, i, k - 1), i, k - 1)
        }
    }

    /// All of row `i`.
    pub open spec fn warp_row(self, w: Warp, q: WarpStrip, i: int) -> WarpStrip {
        let ends = self.row_quad(w, i);
        self.warp_words(
            w,
            self.row_delta(ends.ax, ends.bx),
            self.row_delta(ends.ay, ends.by),
            self.halftone_at(q.mem, self.dy + i),
            WarpStrip {
                sx: self.row_start(ends.ax, ends.bx),
                sy: self.row_start(ends.ay, ends.by),
                ..q
            },
            i,
            self.row_words(),
        )
    }

    /// The first `i` rows.
    pub open spec fn warp_rows(self, w: Warp, q: WarpStrip, i: int) -> WarpStrip
        decreases i,
    {
        if i <= 0 {
            q
        } else {
            self.warp_row(w, self.warp_rows(w, q, i - 1), i - 1)
        }
    }

    /// The conversion of colors that smoothing implies, as bits per component:
    /// averages have 8.
    pub open spec fn smoothing_conversion(self, smoothing: int) -> Option<(int, int)> {
        if smoothing > 1 && self.cmFlags & COLOR_MAP_NEW_STYLE == 0 {
            if self.cmLookupTable != 0 {
                Some((8, self.cmBitsPerColor as int))
            } else if self.destDepth == 16 {
                Some((8, 5))
            } else {
                None
            }
        } else {
            None
        }
    }

    /// The registers made ready for a warp.
    pub open spec fn warp_prepared(self, smoothing: int) -> BitBlt {
        match self.smoothing_conversion(smoothing) {
            None => self.with_warp_setup(),
            Some((from, to)) => self.with_warp_setup().with_color_masks(from, to),
        }
    }

    /// The arithmetic of a warp stays within a word of the machine.
    pub open spec fn warp_fits(self, w: Warp) -> bool {
        &&& 1 <= w.smoothing
        &&& 255 * (w.smoothing * w.smoothing) <= sqInt::MAX
        &&& -WARP_LIMIT <= self.width <= WARP_LIMIT
        &&& self.rows_skipped() <= sqInt::MAX
        &&& self.columns_skipped() <= sqInt::MAX
        &&& w.corner.in_limit()
        &&& w.step.in_limit()
        &&& forall|i: int|
            0 <= i <= self.bbH || i == 0 ==> {
                let ends = #[trigger] self.row_quad(w, i);
                &&& ends.in_limit()
                &&& -0x4000_0000_0000_0000 <= self.columns_skipped() * self.row_delta(
                    ends.ax,
                    ends.bx,
                ) <= 0x4000_0000_0000_0000
                &&& -0x4000_0000_0000_0000 <= self.columns_skipped() * self.row_delta(
                    ends.ay,
                    ends.by,
                ) <= 0x4000_0000_0000_0000
            }
    }

    /// The warp can run on a memory of this size, with these registers.
    pub open spec fn warp_ok(self, size: nat, w: Warp) -> bool {
        &&& self.merge_ok(size)
        &&& 1 <= self.nWords <= 0x1_0000_0000
        &&& 1 <= self.bbW
        &&& self.warp_ready()
        &&& self.warp_source_ok(size)
        &&& w.smoothing == 1 ==> self.map_ok(size, self.mapper_flags())
        &&& w.smoothing != 1 ==> self.map_ok(size, self.cmFlags) && self.source_map_ok(size, w.map)
        &&& self.halftone_ok(size)
        &&& !self.noHalftone ==> 0 <= self.dy
        &&& self.forward_rows_ok(size)
        &&& self.count_fits(self.bitCount as int, self.bbH * self.row_words())
    }

    /// The state that a warp starts from.
    pub open spec fn warp_begin(self, m: Seq<u8>) -> WarpStrip {
        WarpStrip {
            mem: m,
            count: self.bitCount as int,
            sx: self.sx,
            sy: self.sy,
            shift: self.srcBitShift,
        }
    }

    /// What the warp loop leaves in the registers.
    pub open spec fn warped(self, q: WarpStrip) -> BitBlt {
        if self.bbH <= 0 {
            self
        } else {
            BitBlt {
                bitCount: q.count as sqInt,
                destMask: ALL_ONES,
                destIndex: wrap_addr(self.forward_row(self.bbH as int)),
                srcBitShift: q.shift,
                dstBitShift: self.dest_bit(0) as sqInt,
                sx: q.sx,
                sy: q.sy,
                ..self
            }
        }
    }
}

impl BitBlt {
    // ---- The registers that loops step through do not matter ---------------

    /// Picking depends on none of the registers that the loops step through.
    proof fn lemma_pick_steady(self, bb: BitBlt)
        requires
            self.steady() == bb.steady(),
        ensures
            self.warp_ready() == bb.warp_ready(),
            forall|size: nat| #[trigger]
                bb.warp_source_ok(size) ==> self.warp_source_ok(size),
            forall|size: nat, map: int| #[trigger]
                self.source_map_ok(size, map) == bb.source_map_ok(size, map),
            forall|m: Seq<u8>, x: int, y: int| #[trigger]
                self.warp_pixel(m, x, y) == bb.warp_pixel(m, x, y),
            forall|x: int, y: int, s: sqInt| #[trigger]
                self.warp_shift(x, y, s) == bb.warp_shift(x, y, s),
    {
        assert(self.steady().sourceBits == bb.steady().sourceBits);
        assert(self.steady().warpBitShiftTable == bb.steady().warpBitShiftTable);
        assert(self.warp_field() == bb.warp_field());
        assert forall|p: int| #[trigger] self.warp_bit(p) == bb.warp_bit(p) by {
            assert(self.warp_field() == bb.warp_field());
        }
        assert forall|x: int, y: int| #[trigger] self.warp_addr(x, y) == bb.warp_addr(x, y) by {
            assert(self.warp_per_word() == bb.warp_per_word());
        }
        assert forall|size: nat| #[trigger] bb.warp_source_ok(size) implies self.warp_source_ok(
            size,
        ) by {
            assert forall|x: int, y: int|
                0 <= x < self.sourceWidth && 0 <= y < self.sourceHeight implies 0
                <= #[trigger] self.warp_addr(x, y) && self.warp_addr(x, y) + 4 <= size by {
                assert(0 <= bb.warp_addr(x, y));
            }
        }
        if bb.warp_ready() {
            assert forall|i: int| 0 <= i < self.warp_per_word() implies self.warpBitShiftTable[i]
                == self.warp_bit(i) by {
                assert(bb.warpBitShiftTable[i] == bb.warp_bit(i));
            }
        }
        if self.warp_ready() {
            assert forall|i: int| 0 <= i < bb.warp_per_word() implies bb.warpBitShiftTable[i]
                == bb.warp_bit(i) by {
                assert(self.warpBitShiftTable[i] == self.warp_bit(i));
            }
        }
    }

    proof fn lemma_sum_row_steady(
        self,
        bb: BitBlt,
        m: Seq<u8>,
        sq: Square,
        q: Sums,
        x: int,
        y: int,
        k: int,
    )
        requires
            self.steady() == bb.steady(),
        ensures
            self.sum_row(m, sq, q, x, y, k) == bb.sum_row(m, sq, q, x, y, k),
        decreases k,
    {
        if k > 0 {
            self.lemma_sum_row_steady(bb, m, sq, q, x, y, k - 1);
            self.lemma_pick_steady(bb);
            assert(self.steady().sourceDepth == bb.steady().sourceDepth);
        }
    }

    proof fn lemma_sum_rows_steady(
        self,
        bb: BitBlt,
        m: Seq<u8>,
        sq: Square,
        x: int,
        y: int,
        shift: sqInt,
        j: int,
    )
        requires
            self.steady() == bb.steady(),
        ensures
            self.sum_rows(m, sq, x, y, shift, j) == bb.sum_rows(m, sq, x, y, shift, j),
        decreases j,
    {
        if j > 0 {
            self.lemma_sum_rows_steady(bb, m, sq, x, y, shift, j - 1);
            self.lemma_sum_row_steady(
                bb,
                m,
                sq,
                self.sum_rows(m, sq, x, y, shift, j - 1),
                x + (j - 1) * sq.xv,
                y + (j - 1) * sq.yv,
                sq.side,
            );
        }
    }

    /// Samples depend on none of the registers that the loops step through.
    proof fn lemma_sample_steady(
        self,
        bb: BitBlt,
        m: Seq<u8>,
        w: Warp,
        xd: sqInt,
        yd: sqInt,
        x: i32,
        y: i32,
        s: sqInt,
    )
        requires
            self.steady() == bb.steady(),
        ensures
            self.warp_sample(m, w, xd, yd, x, y, s) == bb.warp_sample(m, w, xd, yd, x, y, s),
    {
        self.lemma_pick_steady(bb);
        assert(self.steady().cmFlags == bb.steady().cmFlags);
        self.lemma_map_steady(
            bb,
            m,
            self.warp_pixel(m, x as int, y as int) as sqInt,
            self.mapper_flags(),
        );
        let sq = BitBlt::square(w.smoothing, w.map, xd as int, yd as int, w.step.ax, w.step.ay);
        self.lemma_sum_rows_steady(bb, m, sq, x as int, y as int, s, sq.side);
        let q = self.sum_rows(m, sq, x as int, y as int, s, sq.side);
        let color = (q.a / q.n) * 0x100_0000 + (q.r / q.n) * 0x1_0000 + (q.g / q.n) * 0x100 + q.b
            / q.n;
        self.lemma_map_steady(bb, m, color as sqInt, self.cmFlags);
    }

    // ---- Sizes and counts -------------------------------------------------

    /// A row keeps the size of the memory and adds a bounded amount to the count.
    proof fn lemma_warp_words(
        self,
        w: Warp,
        xd: sqInt,
        yd: sqInt,
        h: u32,
        q: WarpStrip,
        i: int,
        k: int,
    )
        requires
            self.dest_wf(),
            0 <= k,
        ensures
            self.warp_words(w, xd, yd, h, q, i, k).mem.len() == q.mem.len(),
            q.count <= self.warp_words(w, xd, yd, h, q, i, k).count <= q.count + k
                * self.count_step(),
        decreases k,
    {
        if k > 0 {
            self.lemma_warp_words(w, xd, yd, h, q, i, k - 1);
            let r = self.warp_words(w, xd, yd, h, q, i, k - 1);
            self.lemma_store_masked(
                self.word_mask(k - 1),
                Picture { mem: r.mem, count: r.count },
                self.forward_word(i, k - 1),
                self.warp_walk(w, xd, yd, r, k - 1).word & h,
            );
            assert(k * self.count_step() == (k - 1) * self.count_step() + self.count_step())
                by (nonlinear_arith);
        }
    }

    /// Rows keep the size of the memory and add a bounded amount to the count.
    proof fn lemma_warp_rows(self, w: Warp, q: WarpStrip, i: int)
        requires
            self.dest_wf(),
            0 <= i,
        ensures
            self.warp_rows(w, q, i).mem.len() == q.mem.len(),
            q.count <= self.warp_rows(w, q, i).count <= q.count + i * self.row_words()
                * self.count_step(),
        decreases i,
    {
        if i > 0 {
            self.lemma_warp_rows(w, q, i - 1);
            let r = self.warp_rows(w, q, i - 1);
            let ends = self.row_quad(w, i - 1);
            self.lemma_warp_words(
                w,
                self.row_delta(ends.ax, ends.bx),
                self.row_delta(ends.ay, ends.by),
                self.halftone_at(r.mem, self.dy + i - 1),
                WarpStrip {
                    sx: self.row_start(ends.ax, ends.bx),
                    sy: self.row_start(ends.ay, ends.by),
                    ..r
                },
                i - 1,
                self.row_words(),
            );
            assert(i * self.row_words() * self.count_step() == (i - 1) * self.row_words()
                * self.count_step() + self.row_words() * self.count_step()) by (nonlinear_arith);
        }
    }

    // ---- The loop ---------------------------------------------------------

    /// Makes word `k` of row `i`: walks over its pixels and merges them in.
    fn warpWord(
        &mut self,
        mem: &mut Memory,
        halftoneWord: u32,
        mask: u32,
        destIndex: UsqInt,
        nPix: sqInt,
        dstShift: sqInt,
        dstShiftInc: sqInt,
        xDelta: sqInt,
        yDelta: sqInt,
        xDeltav: sqInt,
        yDeltav: sqInt,
        smoothingCount: sqInt,
        sourceMap: UsqInt,
        Ghost(bb): Ghost<BitBlt>,
        Ghost(w): Ghost<Warp>,
        Ghost(q): Ghost<WarpStrip>,
        Ghost(i): Ghost<int>,
        Ghost(k): Ghost<int>,
    )
        requires
            bb.warp_ok(old(mem)@.len(), w),
            w.smoothing == smoothingCount,
            w.map == sourceMap,
            w.step.ax == xDeltav,
            w.step.ay == yDeltav,
            1 <= smoothingCount,
            255 * (smoothingCount * smoothingCount) <= sqInt::MAX,
            -STEP_LIMIT <= xDelta <= STEP_LIMIT,
            -STEP_LIMIT <= yDelta <= STEP_LIMIT,
            w.step.in_limit(),
            old(self).steady() == bb.steady(),
            old(self).bitCount == q.count,
            old(self).sx == q.sx,
            old(self).sy == q.sy,
            old(self).srcBitShift == q.shift,
            old(mem)@ == q.mem,
            q.count + bb.count_step() <= sqInt::MAX,
            mask == bb.word_mask(k),
            destIndex == bb.forward_word(i, k),
            valid_word(old(mem)@, bb.forward_word(i, k)),
            nPix == bb.pix_count(k),
            dstShift == bb.pix_bit(k),
            dstShiftInc == bb.dest_inc(),
        ensures
            ({
                let after = bb.warp_word(w, xDelta, yDelta, halftoneWord, q, i, k);
                &&& final(mem)@ == after.mem
                &&& final(mem)@.len() == old(mem)@.len()
                &&& final(self).bitCount == after.count
                &&& final(self).sx == after.sx
                &&& final(self).sy == after.sy
                &&& final(self).srcBitShift == after.shift
                &&& final(self).steady() == bb.steady()
                &&& *final(self) == (BitBlt {
                    bitCount: final(self).bitCount,
                    destMask: mask,
                    sx: final(self).sx,
                    sy: final(self).sy,
                    srcBitShift: final(self).srcBitShift,
                    dstBitShift: final(self).dstBitShift,
                    ..*old(self)
                })
            }),
    {
        self.dstBitShift = dstShift;
        let ghost now = *self;
        let ghost f_now = |x: i32, y: i32, s: sqInt|
            now.warp_sample(mem@, w, xDelta, yDelta, x, y, s);
        let ghost f = |x: i32, y: i32, s: sqInt| bb.warp_sample(mem@, w, xDelta, yDelta, x, y, s);
        let ghost sq = BitBlt::square(
            w.smoothing,
            w.map,
            xDelta as int,
            yDelta as int,
            w.step.ax,
            w.step.ay,
        );
        let flags: sqInt = self.cmFlags & !COLOR_MAP_NEW_STYLE;
        proof {
            assert(now.steady() == bb.steady());
            assert(now.steady().cmFlags == bb.steady().cmFlags);
            now.lemma_pick_steady(bb);
            now.lemma_map_steady(bb, mem@, 0, flags);
            now.lemma_map_steady(bb, mem@, 0, now.cmFlags);
            bb.lemma_pix_count(k);
            bb.lemma_dest_bits(
                if k == 0 {
                    bb.dest_place(bb.dx as int)
                } else {
                    0
                },
                bb.pix_count(k),
            );
            assert forall|x: i32, y: i32, s: sqInt| #[trigger] f_now(x, y, s) == f(x, y, s) by {
                now.lemma_sample_steady(bb, mem@, w, xDelta, yDelta, x, y, s);
            }
            assert(f_now =~= f);
        }
        let skewWord: u32 = if smoothingCount == 1 {
            assert(f_now =~= (|x: i32, y: i32, s: sqInt| now.plain_sample(mem@, flags, x, y, s)));
            self.warpPickSourcePixels(
                mem,
                nPix,
                xDelta,
                yDelta,
                xDeltav,
                yDeltav,
                dstShiftInc,
                flags,
            )
        } else {
            assert(f_now =~= (|x: i32, y: i32, s: sqInt| now.smooth_sample(mem@, sq, x, y, s)));
            self.warpPickSmoothPixels(
                mem,
                nPix,
                xDelta,
                yDelta,
                xDeltav,
                yDeltav,
                sourceMap,
                smoothingCount,
                dstShiftInc,
            )
        };
        proof {
            assert(self.steady() == bb.steady());
            self.lemma_store_steady(
                bb,
                mask,
                Picture { mem: mem@, count: self.bitCount as int },
                destIndex as int,
                skewWord & halftoneWord,
            );
        }
        self.storeMasked(mem, mask, destIndex, skewWord & halftoneWord);
    }
}

/// The step along a row is small enough that the whole row fits.
pub(crate) proof fn lemma_row_room(a: int, b: int, n: int)
    requires
        -WARP_LIMIT <= a <= WARP_LIMIT,
        -WARP_LIMIT <= b <= WARP_LIMIT,
        1 <= n <= WARP_LIMIT,
    ensures
        -STEP_LIMIT <= warp_delta(a, b, n) <= STEP_LIMIT,
        -4 * WARP_LIMIT <= n * warp_delta(a, b, n) <= 4 * WARP_LIMIT,
{
    let t = if b > a {
        b - a + FIXED_PT1
    } else {
        a - b + FIXED_PT1
    };
    let q = t / (n + 1);
    assert(0 <= q && 2 * q <= t && n * q <= t && n * (q + 1) == n * q + n && n * (-(q + 1)) == -(n
        * (q + 1))) by (nonlinear_arith)
        requires
            0 <= t,
            1 <= n,
            q == t / (n + 1),
    ;
    assert(n * 0 == 0);
}

impl BitBlt {
    /// Where the walk along a row from `a` to `b` starts.
    fn rowStart(&self, a: sqInt, b: sqInt, delta: sqInt, nSteps: sqInt) -> (r: i32)
        requires
            -WARP_LIMIT <= a <= WARP_LIMIT,
            -WARP_LIMIT <= b <= WARP_LIMIT,
            nSteps == self.warp_steps(),
            nSteps <= WARP_LIMIT,
            delta == self.row_delta(a as int, b as int),
            self.columns_skipped() <= sqInt::MAX,
            -0x4000_0000_0000_0000 <= self.columns_skipped() * delta <= 0x4000_0000_0000_0000,
        ensures
            r == self.row_start(a as int, b as int),
    {
        proof {
            lemma_row_room(a as int, b as int, nSteps as int);
        }
        let start: i32 = if delta >= 0 {
            a as i32
        } else {
            (b - nSteps * delta) as i32
        };
        if self.destX < self.clipX {
            (start as sqInt + (self.clipX - self.destX) * delta) as i32
        } else {
            start
        }
    }

    /// Makes row `i`, from the destination address at its start.
    fn warpRow(
        &mut self,
        mem: &mut Memory,
        halftoneWord: u32,
        destIndex: UsqInt,
        xDelta: sqInt,
        yDelta: sqInt,
        xDeltav: sqInt,
        yDeltav: sqInt,
        smoothingCount: sqInt,
        sourceMap: UsqInt,
        Ghost(bb): Ghost<BitBlt>,
        Ghost(w): Ghost<Warp>,
        Ghost(q): Ghost<WarpStrip>,
        Ghost(i): Ghost<int>,
    ) -> (r: UsqInt)
        requires
            bb.warp_ok(old(mem)@.len(), w),
            0 <= i < bb.bbH,
            w.smoothing == smoothingCount,
            w.map == sourceMap,
            w.step.ax == xDeltav,
            w.step.ay == yDeltav,
            1 <= smoothingCount,
            255 * (smoothingCount * smoothingCount) <= sqInt::MAX,
            -STEP_LIMIT <= xDelta <= STEP_LIMIT,
            -STEP_LIMIT <= yDelta <= STEP_LIMIT,
            w.step.in_limit(),
            old(self).steady() == bb.steady(),
            *old(self) == (BitBlt {
                bitCount: old(self).bitCount,
                destMask: old(self).destMask,
                sx: old(self).sx,
                sy: old(self).sy,
                srcBitShift: old(self).srcBitShift,
                dstBitShift: old(self).dstBitShift,
                ..bb
            }),
            old(self).bitCount == q.count,
            old(self).sx == q.sx,
            old(self).sy == q.sy,
            old(self).srcBitShift == q.shift,
            old(mem)@ == q.mem,
            destIndex == wrap_addr(bb.forward_row(i)),
            q.count + bb.row_words() * bb.count_step() <= sqInt::MAX,
        ensures
            ({
                let strip = bb.warp_words(w, xDelta, yDelta, halftoneWord, q, i, bb.row_words());
                &&& final(mem)@ == strip.mem
                &&& final(mem)@.len() == old(mem)@.len()
                &&& final(self).bitCount == strip.count
                &&& final(self).sx == strip.sx
                &&& final(self).sy == strip.sy
                &&& final(self).srcBitShift == strip.shift
                &&& final(self).dstBitShift == bb.dest_bit(0)
                &&& final(self).steady() == bb.steady()
                &&& r == wrap_addr(bb.forward_word(i, bb.row_words()))
                &&& *final(self) == (BitBlt {
                    bitCount: final(self).bitCount,
                    destMask: ALL_ONES,
                    sx: final(self).sx,
                    sy: final(self).sy,
                    srcBitShift: final(self).srcBitShift,
                    dstBitShift: final(self).dstBitShift,
                    ..bb
                })
            }),
    {
        let ppw: sqInt = self.destPPW;
        let depth: sqInt = self.destDepth as sqInt;
        let x0: sqInt = self.dx as sqInt;
        let x1: sqInt = (self.dx as sqInt + self.bbW as sqInt) - 1;
        proof {
            lemma_ppw_bound(bb);
            lemma_place(x0, (ppw - 1) as sqInt);
            lemma_place(x1, (ppw - 1) as sqInt);
            bb.lemma_pix_count(0);
            bb.lemma_dest_bits(bb.dest_place(bb.dx as int), bb.pix_count(0));
        }
        let place: sqInt = x0 & (ppw - 1);
        let mut startBits: sqInt = ppw - place;
        if (self.bbW as sqInt) < startBits {
            startBits = self.bbW as sqInt;
        }
        let endBits: sqInt = (x1 & (ppw - 1)) + 1;
        let mut dstShift: sqInt = place * depth;
        let mut dstShiftInc: sqInt = depth;
        let mut dstShiftLeft: sqInt = 0;
        if self.destMSB != 0 {
            dstShift = (32 - depth) - dstShift;
            dstShiftInc = -dstShiftInc;
            dstShiftLeft = 32 - depth;
        }
        assert(0 * depth == 0);
        let words: sqInt = self.nWords;
        let mut index: UsqInt = destIndex;
        let mut k: sqInt = 0;
        while k < words
            invariant
                bb.warp_ok(old(mem)@.len(), w),
                0 <= i < bb.bbH,
                w.smoothing == smoothingCount,
                w.map == sourceMap,
                w.step.ax == xDeltav,
                w.step.ay == yDeltav,
                1 <= smoothingCount,
                255 * (smoothingCount * smoothingCount) <= sqInt::MAX,
                -STEP_LIMIT <= xDelta <= STEP_LIMIT,
                -STEP_LIMIT <= yDelta <= STEP_LIMIT,
                w.step.in_limit(),
                words == bb.row_words(),
                words == bb.nWords,
                ppw == bb.destPPW,
                startBits == bb.first_count(),
                endBits == bb.pixels_to(bb.dx + bb.bbW - 1),
                dstShift == bb.pix_bit(0),
                dstShiftLeft == bb.dest_bit(0),
                dstShiftInc == bb.dest_inc(),
                q.mem.len() == old(mem)@.len(),
                q.count + bb.row_words() * bb.count_step() <= sqInt::MAX,
                0 <= k <= words,
                index == wrap_addr(bb.forward_word(i, k as int)),
                mem@.len() == old(mem)@.len(),
                ({
                    let s = bb.warp_words(w, xDelta, yDelta, halftoneWord, q, i, k as int);
                    &&& mem@ == s.mem
                    &&& self.bitCount == s.count
                    &&& self.sx == s.sx
                    &&& self.sy == s.sy
                    &&& self.srcBitShift == s.shift
                }),
                self.steady() == bb.steady(),
                *self == (BitBlt {
                    bitCount: self.bitCount,
                    destMask: self.destMask,
                    sx: self.sx,
                    sy: self.sy,
                    srcBitShift: self.srcBitShift,
                    dstBitShift: self.dstBitShift,
                    ..bb
                }),
            decreases words - k,
        {
            let ghost s = bb.warp_words(w, xDelta, yDelta, halftoneWord, q, i, k as int);
            let mask: u32 = if k == 0 {
                self.mask1
            } else if k == words - 1 {
                self.mask2
            } else {
                ALL_ONES
            };
            let nPix: sqInt = if k == 0 {
                startBits
            } else if k == words - 1 {
                endBits
            } else {
                ppw
            };
            let at: sqInt = if k == 0 {
                dstShift
            } else {
                dstShiftLeft
            };
            proof {
                mem.lemma_size();
                bb.lemma_warp_words(w, xDelta, yDelta, halftoneWord, q, i, k as int);
                assert(0 <= bb.forward_word(i, k as int));
                assert(k * bb.count_step() + bb.count_step() <= words * bb.count_step())
                    by (nonlinear_arith)
                    requires
                        0 <= k < words,
                        0 <= bb.count_step(),
                ;
            }
            self.warpWord(
                mem,
                halftoneWord,
                mask,
                index,
                nPix,
                at,
                dstShiftInc,
                xDelta,
                yDelta,
                xDeltav,
                yDeltav,
                smoothingCount,
                sourceMap,
                Ghost(bb),
                Ghost(w),
                Ghost(s),
                Ghost(i),
                Ghost(k as int),
            );
            index = stepped(index, 4);
            k = k + 1;
        }
        self.destMask = ALL_ONES;
        self.dstBitShift = dstShiftLeft;
        index
    }

    /// The ends of row `i + 1` are one step from those of row `i`.
    proof fn lemma_row_quad(self, w: Warp, i: int)
        ensures
            self.row_quad(w, i + 1) == (Quad {
                ax: self.row_quad(w, i).ax + w.step.ax,
                ay: self.row_quad(w, i).ay + w.step.ay,
                bx: self.row_quad(w, i).bx + w.step.bx,
                by: self.row_quad(w, i).by + w.step.by,
            }),
            self.row_quad(w, 0) == w.corner.stepped(w.step, self.rows_skipped()),
    {
        assert((i + 1) * w.step.ax == i * w.step.ax + w.step.ax) by (nonlinear_arith);
        assert((i + 1) * w.step.ay == i * w.step.ay + w.step.ay) by (nonlinear_arith);
        assert((i + 1) * w.step.bx == i * w.step.bx + w.step.bx) by (nonlinear_arith);
        assert((i + 1) * w.step.by == i * w.step.by + w.step.by) by (nonlinear_arith);
        assert(0 * w.step.ax == 0 && 0 * w.step.ay == 0 && 0 * w.step.bx == 0 && 0 * w.step.by
            == 0);
    }
}

impl BitBlt {
    /// All rows of the warp, with registers that are ready for it.
    fn warpRows(
        &mut self,
        mem: &mut Memory,
        pAx: sqInt,
        pAy: sqInt,
        pBx: sqInt,
        pBy: sqInt,
        deltaP12x: sqInt,
        deltaP12y: sqInt,
        deltaP43x: sqInt,
        deltaP43y: sqInt,
        smoothingCount: sqInt,
        sourceMap: UsqInt,
        Ghost(w): Ghost<Warp>,
    )
        requires
            old(self).warp_ok(old(mem)@.len(), w),
            old(self).warp_fits(w),
            w.smoothing == smoothingCount,
            w.map == sourceMap,
            w.step == (Quad {
                ax: deltaP12x as int,
                ay: deltaP12y as int,
                bx: deltaP43x as int,
                by: deltaP43y as int,
            }),
            old(self).row_quad(w, 0) == (Quad {
                ax: pAx as int,
                ay: pAy as int,
                bx: pBx as int,
                by: pBy as int,
            }),
        ensures
            ({
                let q = old(self).warp_rows(
                    w,
                    old(self).warp_begin(old(mem)@),
                    old(self).bbH as int,
                );
                &&& final(mem)@ == q.mem
                &&& final(mem)@.len() == old(mem)@.len()
                &&& *final(self) == old(self).warped(q)
            }),
    {
        let ghost bb = *self;
        let ghost start = bb.warp_begin(mem@);
        let height: sqInt = self.bbH as sqInt;
        let nSteps: sqInt = if self.width - 1 <= 0 {
            1
        } else {
            self.width - 1
        };
        let mut ax: sqInt = pAx;
        let mut ay: sqInt = pAy;
        let mut bx: sqInt = pBx;
        let mut by: sqInt = pBy;
        let mut index: UsqInt = self.destIndex;
        let mut i: sqInt = 0;
        proof {
            assert(0 * (4 * bb.row_words() + bb.destDelta) == 0);
        }
        while i < height
            invariant
                bb == *old(self),
                start == bb.warp_begin(old(mem)@),
                height == bb.bbH,
                nSteps == bb.warp_steps(),
                bb.warp_ok(old(mem)@.len(), w),
                bb.warp_fits(w),
                w.smoothing == smoothingCount,
                w.map == sourceMap,
                w.step == (Quad {
                    ax: deltaP12x as int,
                    ay: deltaP12y as int,
                    bx: deltaP43x as int,
                    by: deltaP43y as int,
                }),
                0 <= i,
                i <= height || i == 0,
                bb.row_quad(w, i as int) == (Quad {
                    ax: ax as int,
                    ay: ay as int,
                    bx: bx as int,
                    by: by as int,
                }),
                *self == (BitBlt {
                    bitCount: self.bitCount,
                    destMask: self.destMask,
                    sx: self.sx,
                    sy: self.sy,
                    srcBitShift: self.srcBitShift,
                    dstBitShift: self.dstBitShift,
                    ..bb
                }),
                self.steady() == bb.steady(),
                i > 0 ==> self.destMask == ALL_ONES,
                i == 0 ==> self.destMask == bb.destMask,
                i > 0 ==> self.dstBitShift == bb.dest_bit(0),
                i == 0 ==> self.dstBitShift == bb.dstBitShift,
                index == wrap_addr(bb.forward_row(i as int)),
                mem@.len() == old(mem)@.len(),
                ({
                    let q = bb.warp_rows(w, start, i as int);
                    &&& mem@ == q.mem
                    &&& self.bitCount == q.count
                    &&& self.sx == q.sx
                    &&& self.sy == q.sy
                    &&& self.srcBitShift == q.shift
                }),
            decreases height - i,
        {
            let ghost before = bb.warp_rows(w, start, i as int);
            proof {
                lemma_row_room(ax as int, bx as int, nSteps as int);
                lemma_row_room(ay as int, by as int, nSteps as int);
                assert(bb.row_quad(w, i as int).in_limit());
                assert(bb.row_quad(w, i + 1).in_limit());
                bb.lemma_row_quad(w, i as int);
                bb.lemma_warp_rows(w, start, i as int);
                bb.lemma_forward_row(i as int);
                lemma_count_room(
                    i as int,
                    bb.bbH as int,
                    bb.row_words(),
                    bb.row_words() - 1,
                    bb.count_step(),
                );
                assert((bb.row_words() - 1) * bb.count_step() + bb.count_step() == bb.row_words()
                    * bb.count_step()) by (nonlinear_arith);
            }
            let xDelta: sqInt = deltaFromtonSteps(ax, bx, nSteps);
            let yDelta: sqInt = deltaFromtonSteps(ay, by, nSteps);
            self.sx = self.rowStart(ax, bx, xDelta, nSteps);
            self.sy = self.rowStart(ay, by, yDelta, nSteps);
            let halftone: u32 = self.halftoneWord(mem, self.dy as sqInt + i);
            index = self.warpRow(
                mem,
                halftone,
                index,
                xDelta,
                yDelta,
                deltaP12x,
                deltaP12y,
                smoothingCount,
                sourceMap,
                Ghost(bb),
                Ghost(w),
                Ghost(WarpStrip { sx: self.sx, sy: self.sy, ..before }),
                Ghost(i as int),
            );
            index = stepped(index, self.destDelta);
            ax = ax + deltaP12x;
            ay = ay + deltaP12y;
            bx = bx + deltaP43x;
            by = by + deltaP43y;
            i = i + 1;
        }
        self.destIndex = index;
    }

    /// Warps a quadrilateral of the source into the destination. The first four
    /// arguments are the ends of the first row in the source, the next four the
    /// steps of each from row to row.
    pub fn warpLoopBody(
        &mut self,
        mem: &mut Memory,
        pAx: sqInt,
        pAy: sqInt,
        pBx: sqInt,
        pBy: sqInt,
        deltaP12x: sqInt,
        deltaP12y: sqInt,
        deltaP43x: sqInt,
        deltaP43y: sqInt,
        smoothingCount: sqInt,
        sourceMap: UsqInt,
    )
        requires
            1 <= old(self).sourceDepth <= 32,
            -0x800_0000_0000_0000 <= old(self).cmBitsPerColor <= 0x800_0000_0000_0000,
            old(self).warp_fits(
                warp_of(
                    pAx,
                    pAy,
                    pBx,
                    pBy,
                    deltaP12x,
                    deltaP12y,
                    deltaP43x,
                    deltaP43y,
                    smoothingCount,
                    sourceMap,
                ),
            ),
            old(self).warp_prepared(smoothingCount as int).warp_ok(
                old(mem)@.len(),
                warp_of(
                    pAx,
                    pAy,
                    pBx,
                    pBy,
                    deltaP12x,
                    deltaP12y,
                    deltaP43x,
                    deltaP43y,
                    smoothingCount,
                    sourceMap,
                ),
            ),
        ensures
            ({
                let set = old(self).warp_prepared(smoothingCount as int);
                let w = warp_of(
                    pAx,
                    pAy,
                    pBx,
                    pBy,
                    deltaP12x,
                    deltaP12y,
                    deltaP43x,
                    deltaP43y,
                    smoothingCount,
                    sourceMap,
                );
                let q = set.warp_rows(w, set.warp_begin(old(mem)@), set.bbH as int);
                final(mem)@ == q.mem && *final(self) == set.warped(q)
            }),
            final(mem)@.len() == old(mem)@.len(),
    {
        let ghost bb = *self;
        let ghost w = warp_of(
            pAx,
            pAy,
            pBx,
            pBy,
            deltaP12x,
            deltaP12y,
            deltaP43x,
            deltaP43y,
            smoothingCount,
            sourceMap,
        );
        let mut ax: sqInt = pAx;
        let mut ay: sqInt = pAy;
        let mut bx: sqInt = pBx;
        let mut by: sqInt = pBy;
        proof {
            bb.lemma_row_quad(w, 0);
            assert(bb.row_quad(w, 0).in_limit());
            assert(0 * w.step.ax == 0 && 0 * w.step.ay == 0 && 0 * w.step.bx == 0 && 0 * w.step.by
                == 0);
        }
        if self.destY < self.clipY {
            let rows: sqInt = self.clipY - self.destY;
            ax = ax + rows * deltaP12x;
            ay = ay + rows * deltaP12y;
            bx = bx + rows * deltaP43x;
            by = by + rows * deltaP43y;
        }
        self.warpLoopSetup();
        if smoothingCount > 1 && (self.cmFlags & COLOR_MAP_NEW_STYLE) == 0 {
            if self.cmLookupTable == 0 {
                if self.destDepth == 16 {
                    self.setupColorMasksFromto(8, 5);
                }
            } else {
                self.setupColorMasksFromto(8, self.cmBitsPerColor);
            }
        }
        proof {
            assert(*self == bb.warp_prepared(smoothingCount as int));
            bb.lemma_fits_kept(w);
        }
        self.warpRows(
            mem,
            ax,
            ay,
            bx,
            by,
            deltaP12x,
            deltaP12y,
            deltaP43x,
            deltaP43y,
            smoothingCount,
            sourceMap,
            Ghost(w),
        );
    }

    /// Making ready for a warp does not move it.
    proof fn lemma_fits_kept(self, w: Warp)
        requires
            self.warp_fits(w),
        ensures
            self.warp_prepared(w.smoothing).warp_fits(w),
            self.warp_prepared(w.smoothing).row_quad(w, 0) == self.row_quad(w, 0),
    {
        let set = self.warp_prepared(w.smoothing);
        assert(set.bbH == self.bbH);
        assert(set.width == self.width);
        assert forall|i: int| #[trigger] set.row_quad(w, i) == self.row_quad(w, i) by {}
        assert forall|a: int, b: int| #[trigger] set.row_delta(a, b) == self.row_delta(a, b) by {}
        assert forall|i: int| 0 <= i <= set.bbH || i == 0 implies {
            let ends = #[trigger] set.row_quad(w, i);
            &&& ends.in_limit()
            &&& -0x4000_0000_0000_0000 <= set.columns_skipped() * set.row_delta(ends.ax, ends.bx)
                <= 0x4000_0000_0000_0000
            &&& -0x4000_0000_0000_0000 <= set.columns_skipped() * set.row_delta(ends.ay, ends.by)
                <= 0x4000_0000_0000_0000
        } by {
            let ends = self.row_quad(w, i);
            assert(ends.in_limit());
        }
    }
}

/// A warp from the values that the loop is given.
pub open spec fn warp_of(
    pAx: sqInt,
    pAy: sqInt,
    pBx: sqInt,
    pBy: sqInt,
    deltaP12x: sqInt,
    deltaP12y: sqInt,
    deltaP43x: sqInt,
    deltaP43y: sqInt,
    smoothingCount: sqInt,
    sourceMap: UsqInt,
) -> Warp {
    Warp {
        corner: Quad { ax: pAx as int, ay: pAy as int, bx: pBx as int, by: pBy as int },
        step: Quad {
            ax: deltaP12x as int,
            ay: deltaP12y as int,
            bx: deltaP43x as int,
            by: deltaP43y as int,
        },
        smoothing: smoothingCount as int,
        map: sourceMap as int,
    }
}

} // verus!
