//! What whole blits make of the destination, bit by bit: from the rectangle that
//! was asked for to the pixels that are left of it after clipping.
use vstd::prelude::*;
use crate::prim::{sqInt, UsqInt};
use crate::bitblt::bits::{lemma_stream_bits, row_bit, rule_bit, stream_bit, word_bit};
use crate::bitblt::blit::BlitArgs;
use crate::bitblt::engine::Picture;
use crate::bitblt::memory::word_at;
use crate::bitblt::state::{
    BitBlt, CmTable, COLOR_MAP_FIXED_PART, COLOR_MAP_INDEXED_PART, COLOR_MAP_PRESENT,
};

verus! {

impl BitBlt {
    /// The destination form lies within a memory of this size, and the clipping
    /// rectangle within the form.
    pub open spec fn dest_whole(self, size: nat) -> bool {
        &&& self.whole_pixels()
        &&& self.clip_in_form()
        &&& 4 <= self.destPitch && self.destPitch % 4 == 0
        &&& self.destWidth * self.destDepth <= 8 * self.destPitch
        &&& self.dest_row(self.destHeight as int) <= size
        &&& size <= UsqInt::MAX
    }

    /// The source form lies within a memory of this size.
    pub open spec fn source_whole(self, size: nat) -> bool {
        &&& self.sourceDepth == 1 || self.sourceDepth == 2 || self.sourceDepth == 4
            || self.sourceDepth == 8 || self.sourceDepth == 16 || self.sourceDepth == 32
        &&& 4 <= self.sourcePitch && self.sourcePitch % 4 == 0
        &&& self.sourceWidth * self.sourceDepth <= 8 * self.sourcePitch
        &&& self.source_row(self.sourceHeight as int) <= size
    }

    /// A range of memory apart from the destination form.
    pub open spec fn beside(self, at: int, size: int) -> bool {
        at + size <= self.dest_row(0) || self.dest_row(self.destHeight as int) <= at
    }

    /// The halftone can be read, and is apart from the destination form.
    pub open spec fn halftone_beside(self, size: nat) -> bool {
        self.noHalftone || {
            &&& 0 < self.halftoneHeight
            &&& self.halftoneBase + 4 * self.halftoneHeight <= size
            &&& self.beside(self.halftoneBase as int, 4 * self.halftoneHeight)
        }
    }

    /// The tables of the color map can be read, and are apart from the destination
    /// form.
    pub open spec fn tables_beside(self, size: nat) -> bool {
        let flags = self.mapper_flags();
        &&& self.map_ok(size, flags)
        &&& flags & COLOR_MAP_PRESENT != 0 ==> {
            &&& flags & COLOR_MAP_FIXED_PART != 0 ==> {
                &&& self.cmShiftTable matches CmTable::Image(at) ==> self.beside(at as int, 16)
                &&& self.cmMaskTable matches CmTable::Image(at) ==> self.beside(at as int, 16)
            }
            &&& flags & COLOR_MAP_INDEXED_PART != 0 ==> self.beside(
                self.cmLookupTable as int,
                4 * (self.cmMask + 1),
            )
        }
    }

    /// What is left of a blit after clipping lies within the destination form.
    pub(crate) proof fn lemma_left_in_form(self, size: nat)
        requires
            self.clip_exact(),
            self.dest_whole(size),
            !self.clipped().is_empty_blit(),
        ensures
            ({
                let c = self.clipped();
                &&& c.dest_form(size)
                &&& self.dest_row(0) <= self.dest_row(c.dy as int)
                &&& self.dest_row(c.dy + c.bbH) <= self.dest_row(self.destHeight as int)
            }),
    {
        let c = self.clipped();
        self.lemma_clip(c.dx as int, c.dy as int);
        self.lemma_clip(c.dx + c.bbW - 1, c.dy + c.bbH - 1);
        let depth = self.destDepth as int;
        let pitch = self.destPitch as int;
        assert((c.dx + c.bbW) * depth <= self.destWidth * depth) by (nonlinear_arith)
            requires
                c.dx + c.bbW <= self.destWidth,
                0 <= depth,
        ;
        assert((c.dy + c.bbH) * pitch <= self.destHeight * pitch && 0 <= c.dy * pitch)
            by (nonlinear_arith)
            requires
                c.dy + c.bbH <= self.destHeight,
                0 <= c.dy,
                0 <= pitch,
        ;
        assert(c.dest_row(c.dy + c.bbH) == self.dest_row(c.dy + c.bbH));
    }

    /// So does what is left of its source within the source form.
    pub(crate) proof fn lemma_left_in_source(self, size: nat)
        requires
            self.clip_exact(),
            self.source_whole(size),
            !self.noSource,
            !self.clipped().is_empty_blit(),
        ensures
            ({
                let c = self.clipped();
                &&& c.map_source_within(size)
                &&& self.source_row(0) <= self.source_row(c.sy as int)
                &&& self.source_row(c.sy + c.bbH) <= self.source_row(self.sourceHeight as int)
            }),
    {
        let c = self.clipped();
        self.lemma_clip(c.dx as int, c.dy as int);
        self.lemma_clip(c.dx + c.bbW - 1, c.dy + c.bbH - 1);
        let depth = self.sourceDepth as int;
        let pitch = self.sourcePitch as int;
        assert((c.sx + c.bbW) * depth <= self.sourceWidth * depth) by (nonlinear_arith)
            requires
                c.sx + c.bbW <= self.sourceWidth,
                0 <= depth,
        ;
        assert((c.sy + c.bbH) * pitch <= self.sourceHeight * pitch && 0 <= c.sy * pitch)
            by (nonlinear_arith)
            requires
                c.sy + c.bbH <= self.sourceHeight,
                0 <= c.sy,
                0 <= pitch,
        ;
        assert(c.source_row(c.sy + c.bbH) == self.source_row(c.sy + c.bbH));
    }

    /// A bit of a row belongs to the blit if its pixel was asked for.
    pub(crate) proof fn lemma_asked_bit(self, y: int, b: int)
        requires
            self.clip_exact(),
            self.whole_pixels(),
            0 <= b,
        ensures
            self.clipped().covers(y, b) == (self.asks_for(b / (self.destDepth as int), y)
                && self.clipped().dy <= y < self.clipped().dy + self.clipped().bbH),
            self.asks_for(b / (self.destDepth as int), y) ==> self.clipped().dy <= y
                < self.clipped().dy + self.clipped().bbH && self.clipped().bbW >= 1,
    {
        let c = self.clipped();
        let d = self.destDepth as int;
        let x = b / d;
        self.lemma_clip(x, y);
        vstd::arithmetic::div_mod::lemma_fundamental_div_mod(b, d);
        let k = b % d;
        assert((c.dx * d <= b < (c.dx + c.bbW) * d) == (c.dx <= x < c.dx + c.bbW))
            by (nonlinear_arith)
            requires
                b == d * x + k,
                0 <= k < d,
        ;
    }

    /// A row of the form lies in memory.
    pub(crate) proof fn lemma_row_there(self, size: nat, y: int)
        requires
            self.dest_whole(size),
            0 <= y < self.destHeight,
        ensures
            0 <= self.dest_row(0) <= self.dest_row(y),
            self.dest_row(y) + self.destPitch <= self.dest_row(self.destHeight as int) <= size,
    {
        let p = self.destPitch as int;
        assert(0 <= y * p && y * p + p <= self.destHeight * p && 0 * p == 0) by (nonlinear_arith)
            requires
                0 <= y,
                y + 1 <= self.destHeight,
                0 <= p,
        ;
    }

    /// A copy loop keeps the size of the memory.
    pub(crate) proof fn lemma_looped_size(self, m: Seq<u8>)
        requires
            self.dest_wf(),
            1 <= self.bbW,
            0 <= self.bbH,
        ensures
            self.looped(m).mem.len() == m.len(),
    {
        reveal(BitBlt::looped);
        let set = self.loop_registers();
        let p = Picture { mem: m, count: set.bitCount as int };
        if self.noSource {
            set.lemma_fill_rows(p, set.bbH as int);
        } else if self.needs_pixmap() {
            set.lemma_pix_rows(p, set.bbH as int);
        } else {
            set.lemma_copy_rows(p, set.bbH as int);
        }
    }

    /// A blit without a source combines exactly the pixels that were asked for
    /// with the halftone, or with ones. Every other bit of the form stays, and so
    /// does all memory beside the form.
    pub proof fn lemma_fill_blit(self, m: Seq<u8>, a: BlitArgs, y: int, b: int, at: int)
        requires
            self.noSource,
            0 <= self.combinationRule <= 15,
            self.clip_exact(),
            self.dest_whole(m.len()),
            self.halftone_beside(m.len()),
            0 <= y < self.destHeight,
            0 <= b < 8 * self.destPitch,
            0 <= at < m.len(),
        ensures
            self.copied_bits(m, a).1,
            ({
                let after = self.copied_bits(m, a).0.mem;
                let msb = self.destMSB != 0;
                let before = row_bit(m, msb, self.dest_row(y), b);
                &&& after.len() == m.len()
                &&& row_bit(after, msb, self.dest_row(y), b) == (if self.asks_for(
                    b / (self.destDepth as int),
                    y,
                ) {
                    rule_bit(
                        self.combinationRule as int,
                        stream_bit(msb, self.halftone_at(m, y), b % 32),
                        before,
                    )
                } else {
                    before
                })
                &&& self.beside(at, 1) ==> after[at] == m[at]
            }),
    {
        let c = self.clipped();
        self.lemma_asked_bit(y, b);
        if !c.is_empty_blit() {
            self.lemma_plain_blit(m, a);
            let run = BitBlt { bitCount: 0, ..c.begun() };
            self.lemma_left_in_form(m.len());
            self.lemma_row_there(m.len(), y);
            assert(run.dest_row(run.dy + run.bbH) == self.dest_row(c.dy + c.bbH));
            assert(run.dest_row(run.dy as int) == self.dest_row(c.dy as int));
            assert(run.dest_row(y) == self.dest_row(y));
            assert(run.dest_form(m.len()));
            assert(run.halftone_apart(m.len()));
            assert(run.covers(y, b) == c.covers(y, b));
            assert(run.halftone_at(m, y) == self.halftone_at(m, y));
            run.lemma_fill(m, y, b, at);
            run.lemma_looped_size(m);
        }
    }

    /// A copy to another depth, bit order or color combines exactly the pixels
    /// that were asked for with their source pixels, taken through the color map.
    /// Every other bit of the form stays, and so does all memory beside the form.
    pub proof fn lemma_map_blit(self, m: Seq<u8>, a: BlitArgs, y: int, b: int, at: int)
        requires
            !self.noSource,
            self.needs_pixmap(),
            self.sourceForm != self.destForm,
            0 <= self.combinationRule <= 15,
            self.clip_exact(),
            self.dest_whole(m.len()),
            self.source_whole(m.len()),
            self.beside(self.source_row(0), self.sourceHeight * self.sourcePitch),
            self.tables_beside(m.len()),
            self.halftone_beside(m.len()),
            0 <= y < self.destHeight,
            0 <= b < 8 * self.destPitch,
            0 <= at < m.len(),
        ensures
            self.copied_bits(m, a).1,
            ({
                let after = self.copied_bits(m, a).0.mem;
                let msb = self.destMSB != 0;
                let before = row_bit(m, msb, self.dest_row(y), b);
                let x = b / (self.destDepth as int);
                let color = self.map_pixel(
                    m,
                    self.source_pixel(
                        m,
                        x - self.destX + self.sourceX,
                        y - self.destY + self.sourceY,
                    ) as sqInt,
                    self.mapper_flags(),
                ) as u32;
                &&& after.len() == m.len()
                &&& row_bit(after, msb, self.dest_row(y), b) == (if self.asks_for(x, y) {
                    rule_bit(
                        self.combinationRule as int,
                        word_bit(color, self.pixel_place_bit(b % (self.destDepth as int)))
                            && stream_bit(msb, self.halftone_at(m, y), b % 32),
                        before,
                    )
                } else {
                    before
                })
                &&& self.beside(at, 1) ==> after[at] == m[at]
            }),
    {
        let c = self.clipped();
        let x = b / (self.destDepth as int);
        self.lemma_asked_bit(y, b);
        self.lemma_clip(x, y);
        if !c.is_empty_blit() {
            self.lemma_plain_blit(m, a);
            let run = BitBlt { bitCount: 0, ..c.begun() };
            self.lemma_left_in_form(m.len());
            self.lemma_left_in_source(m.len());
            self.lemma_row_there(m.len(), y);
            assert(run.dest_row(run.dy + run.bbH) == self.dest_row(c.dy + c.bbH));
            assert(run.dest_row(run.dy as int) == self.dest_row(c.dy as int));
            assert(run.source_row(run.sy + run.bbH) == self.source_row(c.sy + c.bbH));
            assert(run.source_row(run.sy as int) == self.source_row(c.sy as int));
            assert(run.dest_row(y) == self.dest_row(y));
            assert(run.dest_form(m.len()));
            assert(run.map_source_form(m.len()));
            assert(run.mapper_flags() == self.mapper_flags());
            assert(run.map_aside(m.len()));
            assert(run.halftone_apart(m.len()));
            assert(run.maps_plainly());
            assert(run.covers(y, b) == c.covers(y, b));
            assert(run.halftone_at(m, y) == self.halftone_at(m, y));
            let (sx, sy) = (x - self.destX + self.sourceX, y - self.destY + self.sourceY);
            assert(run.source_pixel(m, sx, sy) == self.source_pixel(m, sx, sy));
            let p = self.source_pixel(m, sx, sy) as sqInt;
            assert(run.map_pixel(m, p, self.mapper_flags()) == self.map_pixel(
                m,
                p,
                self.mapper_flags(),
            ));
            assert(run.mapped_for(m, x, y) == self.map_pixel(m, p, self.mapper_flags()) as u32);
            run.lemma_map(m, y, b, at);
            run.lemma_looped_size(m);
        }
    }

    /// What is left of a copy between two forms of one depth, ready for its loop.
    pub(crate) proof fn lemma_copy_ready(self, size: nat)
        requires
            !self.noSource,
            !self.needs_pixmap(),
            self.destPPW == self.sourcePPW,
            self.sourceForm != self.destForm,
            self.clip_exact(),
            self.dest_whole(size),
            self.source_whole(size),
            self.beside(self.source_row(0), self.sourceHeight * self.sourcePitch),
            self.halftone_beside(size),
            !self.clipped().is_empty_blit(),
        ensures
            ({
                let run = BitBlt { bitCount: 0, ..self.clipped().begun() };
                &&& run.copies_plainly()
                &&& !run.copies_up()
                &&& run.dest_form(size)
                &&& run.source_form(size)
                &&& run.reads_first()
                &&& run.halftone_apart(size)
            }),
    {
        let c = self.clipped();
        let run = BitBlt { bitCount: 0, ..c.begun() };
        self.lemma_left_in_form(size);
        self.lemma_left_in_source(size);
        assert(run.dest_row(run.dy + run.bbH) == self.dest_row(c.dy + c.bbH));
        assert(run.dest_row(run.dy as int) == self.dest_row(c.dy as int));
        assert(run.source_row(run.sy + run.bbH) == self.source_row(c.sy + c.bbH));
        assert(run.source_row(run.sy as int) == self.source_row(c.sy as int));
        assert(run.dest_form(size));
        assert(run.source_form(size));
        run.lemma_apart_forms_read_first(size);
    }

    /// A copy between two forms of one depth combines exactly the pixels that were
    /// asked for with their source pixels, bit by bit, cut down to the halftone.
    /// Every other bit of the form stays, and so does all memory beside the form.
    pub proof fn lemma_copy_blit(self, m: Seq<u8>, a: BlitArgs, y: int, b: int, at: int)
        requires
            !self.noSource,
            !self.needs_pixmap(),
            self.destPPW == self.sourcePPW,
            self.sourceForm != self.destForm,
            0 <= self.combinationRule <= 15,
            self.clip_exact(),
            self.dest_whole(m.len()),
            self.source_whole(m.len()),
            self.beside(self.source_row(0), self.sourceHeight * self.sourcePitch),
            self.halftone_beside(m.len()),
            0 <= y < self.destHeight,
            0 <= b < 8 * self.destPitch,
            0 <= at < m.len(),
        ensures
            self.copied_bits(m, a).1,
            ({
                let after = self.copied_bits(m, a).0.mem;
                let msb = self.destMSB != 0;
                let before = row_bit(m, msb, self.dest_row(y), b);
                let source = row_bit(
                    m,
                    msb,
                    self.source_row(y - self.destY + self.sourceY),
                    b + (self.sourceX - self.destX) * self.destDepth,
                );
                &&& after.len() == m.len()
                &&& row_bit(after, msb, self.dest_row(y), b) == (if self.asks_for(
                    b / (self.destDepth as int),
                    y,
                ) {
                    rule_bit(
                        self.combinationRule as int,
                        source && stream_bit(msb, self.halftone_at(m, y), b % 32),
                        before,
                    )
                } else {
                    before
                })
                &&& self.beside(at, 1) ==> after[at] == m[at]
            }),
    {
        let c = self.clipped();
        let x = b / (self.destDepth as int);
        self.lemma_asked_bit(y, b);
        self.lemma_clip(x, y);
        if !c.is_empty_blit() {
            self.lemma_plain_blit(m, a);
            let run = BitBlt { bitCount: 0, ..c.begun() };
            self.lemma_left_in_form(m.len());
            self.lemma_copy_ready(m.len());
            self.lemma_row_there(m.len(), y);
            assert(run.dest_row(run.dy + run.bbH) == self.dest_row(c.dy + c.bbH));
            assert(run.dest_row(run.dy as int) == self.dest_row(c.dy as int));
            assert(run.dest_row(y) == self.dest_row(y));
            assert(run.covers(y, b) == c.covers(y, b));
            assert(run.halftone_row(m, y) == self.halftone_at(m, y));
            let sy = y - self.destY + self.sourceY;
            assert(y - run.dy + run.sy == sy);
            assert(run.source_row(sy) == self.source_row(sy));
            run.lemma_copy(m, y, b, at);
            run.lemma_looped_size(m);
        }
    }

    /// The rectangle that a blit says it has changed is what was left of it after
    /// clipping: the pixels that were asked for. The blends with a constant alpha
    /// say that they have changed nothing.
    pub proof fn lemma_affected(self, m: Seq<u8>, a: BlitArgs, x: int, y: int)
        requires
            self.clip_exact(),
            self.copied_bits(m, a).1,
            self.clipped().direction_fits(),
        ensures
            ({
                let after = self.copied_bits(m, a).0.bb;
                (after.affectedL <= x < after.affectedR && after.affectedT <= y < after.affectedB)
                    == (self.asks_for(x, y) && self.combinationRule != 30 && self.combinationRule
                    != 31)
            }),
    {
        let c = self.clipped();
        self.lemma_clip(x, y);
        if !c.is_empty_blit() {
            let run = c.begun().with_args(a).0;
            assert(run.dx == c.dx && run.dy == c.dy && run.bbW == c.bbW && run.bbH == c.bbH);
            assert(run.sx == c.sx && run.sy == c.sy);
            assert(run.combinationRule == self.combinationRule);
            assert(run.sourceForm == c.sourceForm && run.destForm == c.destForm);
            if !run.is_quick() {
                (BitBlt { bitCount: 0, ..run }).lemma_affected_run(m);
            }
        }
    }

    proof fn lemma_affected_run(self, m: Seq<u8>)
        requires
            self.direction_fits(),
            1 <= self.bbW,
            1 <= self.bbH,
        ensures
            ({
                let after = self.looped(m).bb.with_affected_run();
                &&& after.affectedL == self.dx && after.affectedR == self.dx + self.bbW
                &&& after.affectedT == self.dy && after.affectedB == self.dy + self.bbH
                &&& self.looped(m).bb.combinationRule == self.combinationRule
            }),
    {
        reveal(BitBlt::looped);
    }

    /// A halftone is laid over the destination from the top of the form, its rows
    /// repeating; its row for row `y` stands at `y` words into it.
    pub proof fn lemma_halftone_repeats(self, m: Seq<u8>, y: int)
        requires
            !self.noHalftone,
            0 < self.halftoneHeight,
            0 <= y,
        ensures
            self.halftone_at(m, y + self.halftoneHeight) == self.halftone_at(m, y),
            y < self.halftoneHeight ==> self.halftone_at(m, y) == word_at(
                m,
                self.halftoneBase + 4 * y,
            ),
    {
        let h = self.halftoneHeight as int;
        vstd::arithmetic::div_mod::lemma_mod_add_multiples_vanish(y, h);
        if y < h {
            vstd::arithmetic::div_mod::lemma_small_mod(y as nat, h as nat);
        }
    }

    /// Without a halftone every row is laid over with ones.
    pub proof fn lemma_no_halftone(self, m: Seq<u8>, y: int, t: int)
        requires
            self.noHalftone,
            0 <= t < 32,
        ensures
            stream_bit(self.destMSB != 0, self.halftone_at(m, y), t),
    {
        lemma_stream_bits(self.destMSB != 0, 0, 0, t);
    }
}

} // verus!
