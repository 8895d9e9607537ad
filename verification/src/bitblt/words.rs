//! What blits by any rule make of 32-bit forms, pixel by pixel.
use vstd::prelude::*;
use crate::prim::sqInt;
use crate::bitblt::bits::{
    lemma_masked_rules, lemma_same_bits, lemma_stream_bits, stream_bit,
};
use crate::bitblt::blit::BlitArgs;
use crate::bitblt::engine::Picture;
use crate::bitblt::memory::word_at;
use crate::bitblt::merge::lemma_shift_zero;
use crate::bitblt::rules::{alpha_blend, alpha_blend_scaled, distance, larger, smaller};
use crate::bitblt::state::{BitBlt, ALL_ONES};

verus! {

impl BitBlt {
    /// The word that a rule that looks at words alone makes of two words.
    pub open spec fn made_of(self, s: u32, d: u32) -> u32 {
        self.merged_word(ALL_ONES, seq![], s, d)
    }

    /// A pixel of 32 bits is a word of its row.
    pub(crate) proof fn lemma_word_pixel(self, m: Seq<u8>, x: int, y: int)
        requires
            self.dest_wf(),
            self.destDepth == 32,
        ensures
            self.dest_pixel(m, x, y) == word_at(m, self.dest_row(y) + 4 * x),
            self.destPPW == 1,
    {
        let w = word_at(m, self.dest_row(y) + 4 * x);
        assert(x / 1 == x && x % 1 == 0);
        lemma_shift_zero(w);
        lemma_masked_rules(ALL_ONES, 0, w);
    }

    /// What is known of the words of 32-bit pixels once a loop has gone over them.
    proof fn lemma_words_done(
        self,
        m: Seq<u8>,
        after: Seq<u8>,
        s: spec_fn(int, int) -> u32,
        x: int,
        y: int,
    )
        requires
            self.dest_form(m.len()),
            self.destDepth == 32,
            self.words_alone(),
            self.dest_grid(false).done(
                m,
                after,
                self.bbH as int,
                0,
                self.ruled_words(m, self.dest_grid(false), s),
            ),
            self.has_pixel(x, y),
        ensures
            self.dest_pixel(after, x, y) == self.made_of(
                s(y - self.dy, x - self.dx),
                self.dest_pixel(m, x, y),
            ),
    {
        let g = self.dest_grid(false);
        let (i, k) = (y - self.dy, x - self.dx);
        self.lemma_word_pixel(m, x, y);
        self.lemma_word_pixel(after, x, y);
        self.lemma_grid_addr(false, y, k);
        self.lemma_row_words();
        self.lemma_whole_masks(k);
        assert(self.dx as int / 1 == self.dx && (self.dx + self.bbW - 1) / 1 == self.dx + self.bbW
            - 1);
        assert(self.first_word() == self.dx);
        assert(self.last_word() == self.dx + self.bbW - 1);
        assert(g.before(i, k, self.bbH as int, 0));
        assert(word_at(after, g.addr(i, k)) == (self.ruled_words(m, g, s))(i, k));
        let d = word_at(m, g.addr(i, k));
        lemma_masked_rules(ALL_ONES, self.made_of(s(i, k), d), d);
        reveal(BitBlt::merge);
    }

    /// A fill by any rule that looks at words alone makes of every 32-bit pixel of
    /// its rectangle what the rule makes of it and of the halftone.
    proof fn lemma_fill_pixel(self, m: Seq<u8>, x: int, y: int)
        requires
            self.noSource,
            self.dest_form(m.len()),
            self.destDepth == 32,
            self.words_alone(),
            self.halftone_apart(m.len()),
            self.has_pixel(x, y),
        ensures
            self.dest_pixel(self.looped(m).mem, x, y) == self.made_of(
                self.halftone_at(m, y),
                self.dest_pixel(m, x, y),
            ),
    {
        reveal(BitBlt::looped);
        let set = self.with_dest_masks();
        let p = Picture { mem: m, count: set.bitCount as int };
        self.lemma_fill_rows_done(m, p, self.bbH as int);
        let after = set.fill_rows(p, self.bbH as int).mem;
        assert(self.looped(m).mem == after);
        self.lemma_words_done(m, after, self.fill_source(m), x, y);
    }

    /// A copy through the general loop does so with the source pixel that belongs
    /// there, taken through the color map.
    proof fn lemma_map_pixel(self, m: Seq<u8>, x: int, y: int)
        requires
            self.maps_plainly(),
            self.dest_form(m.len()),
            self.destDepth == 32,
            self.words_alone(),
            self.map_source_form(m.len()),
            self.map_aside(m.len()),
            self.halftone_apart(m.len()),
            self.has_pixel(x, y),
        ensures
            self.dest_pixel(self.looped(m).mem, x, y) == self.made_of(
                self.mapped_for(m, x, y) & self.halftone_at(m, y),
                self.dest_pixel(m, x, y),
            ),
    {
        reveal(BitBlt::looped);
        let set = self.with_dest_masks();
        assert(self.loop_registers() == set);
        let p = Picture { mem: m, count: set.bitCount as int };
        self.lemma_map_rows_done(m, p, self.bbH as int);
        let after = set.pix_rows(p, self.bbH as int).mem;
        assert(self.looped(m).mem == after);
        self.lemma_words_done(m, after, self.map_source(m), x, y);
        self.lemma_word_pixel(m, x, y);
        self.lemma_row_words();
        let msb = self.destMSB != 0;
        let v = (self.map_source(m))(y - self.dy, x - self.dx);
        let w = self.mapped_for(m, x, y) & self.halftone_at(m, y);
        assert(self.dx as int / 1 == self.dx);
        assert(self.first_word() == self.dx);
        assert forall|t: int| 0 <= t < 32 implies #[trigger] stream_bit(msb, v, t) == stream_bit(
            msb,
            w,
            t,
        ) by {
            let b = 32 * x + t;
            assert(b / 32 == x && b % 32 == t);
            assert(self.covers(y, b));
            self.lemma_map_source_bits(m, y, b);
            lemma_stream_bits(msb, self.mapped_for(m, x, y), self.halftone_at(m, y), t);
        }
        lemma_same_bits(msb, v, w);
    }

    /// What a rule that looks at words alone makes of two words does not depend on
    /// where the blit is.
    proof fn lemma_made_same(self, other: BitBlt, s: u32, d: u32)
        requires
            self.words_alone(),
            other.combinationRule == self.combinationRule,
            other.dest_geometry() == self.dest_geometry(),
            other.sourceAlpha == self.sourceAlpha,
        ensures
            other.made_of(s, d) == self.made_of(s, d),
    {
        assert(other.destDepth == self.dest_geometry().depth);
        assert(other.destPPW == self.dest_geometry().ppw);
        assert(other.destMSB == self.dest_geometry().msb);
    }

    /// The rule is one that copy loops carry out and that takes no argument.
    pub open spec fn takes_no_argument(self) -> bool {
        &&& self.words_alone()
        &&& self.combinationRule != 30 && self.combinationRule != 31
        &&& !self.is_quick()
    }

    /// A blit without a source, by any rule that looks at words alone, makes of
    /// every 32-bit pixel that was asked for what the rule makes of it and of the
    /// halftone, or of ones.
    pub proof fn lemma_fill_blit_by_rule(self, m: Seq<u8>, a: BlitArgs, x: int, y: int)
        requires
            self.noSource,
            self.takes_no_argument(),
            self.destDepth == 32,
            self.clip_exact(),
            self.dest_whole(m.len()),
            self.halftone_beside(m.len()),
            self.asks_for(x, y),
        ensures
            self.copied_bits(m, a).1,
            self.dest_pixel(self.copied_bits(m, a).0.mem, x, y) == self.made_of(
                self.halftone_at(m, y),
                self.dest_pixel(m, x, y),
            ),
    {
        let c = self.clipped();
        self.lemma_clip(x, y);
        let run = BitBlt { bitCount: 0, ..c.begun() };
        self.lemma_left_in_form(m.len());
        assert(c.begun().with_args(a) == (c.begun(), true));
        assert(!c.begun().is_quick());
        let after = self.copied_bits(m, a).0.mem;
        assert(after == run.looped(m).mem);
        assert(run.dest_row(run.dy + run.bbH) == self.dest_row(c.dy + c.bbH));
        assert(run.dest_row(run.dy as int) == self.dest_row(c.dy as int));
        assert(run.dest_form(m.len()));
        assert(run.halftone_apart(m.len()));
        assert(run.halftone_at(m, y) == self.halftone_at(m, y));
        run.lemma_fill_pixel(m, x, y);
        assert(run.dest_pixel(m, x, y) == self.dest_pixel(m, x, y));
        assert(run.dest_pixel(after, x, y) == self.dest_pixel(after, x, y));
        self.lemma_made_same(run, self.halftone_at(m, y), self.dest_pixel(m, x, y));
    }

    /// A copy to 32 bits from another depth or through a color map, by any rule that
    /// looks at words alone, makes of every pixel that was asked for what the rule
    /// makes of it and of the color of its source pixel, cut down to the halftone.
    pub proof fn lemma_map_blit_by_rule(self, m: Seq<u8>, a: BlitArgs, x: int, y: int)
        requires
            !self.noSource,
            self.takes_no_argument(),
            self.needs_pixmap(),
            self.sourceForm != self.destForm,
            self.destDepth == 32,
            self.clip_exact(),
            self.dest_whole(m.len()),
            self.source_whole(m.len()),
            self.beside(self.source_row(0), self.sourceHeight * self.sourcePitch),
            self.tables_beside(m.len()),
            self.halftone_beside(m.len()),
            self.asks_for(x, y),
        ensures
            self.copied_bits(m, a).1,
            ({
                let color = self.map_pixel(
                    m,
                    self.source_pixel(
                        m,
                        x - self.destX + self.sourceX,
                        y - self.destY + self.sourceY,
                    ) as sqInt,
                    self.mapper_flags(),
                ) as u32;
                self.dest_pixel(self.copied_bits(m, a).0.mem, x, y) == self.made_of(
                    color & self.halftone_at(m, y),
                    self.dest_pixel(m, x, y),
                )
            }),
    {
        let c = self.clipped();
        self.lemma_clip(x, y);
        let run = BitBlt { bitCount: 0, ..c.begun() };
        self.lemma_left_in_form(m.len());
        self.lemma_left_in_source(m.len());
        assert(c.begun().with_args(a) == (c.begun(), true));
        assert(!c.begun().is_quick());
        let after = self.copied_bits(m, a).0.mem;
        assert(after == run.looped(m).mem);
        assert(run.dest_row(run.dy + run.bbH) == self.dest_row(c.dy + c.bbH));
        assert(run.dest_row(run.dy as int) == self.dest_row(c.dy as int));
        assert(run.source_row(run.sy + run.bbH) == self.source_row(c.sy + c.bbH));
        assert(run.source_row(run.sy as int) == self.source_row(c.sy as int));
        assert(run.dest_form(m.len()));
        assert(run.map_source_form(m.len()));
        assert(run.mapper_flags() == self.mapper_flags());
        assert(run.map_aside(m.len()));
        assert(run.halftone_apart(m.len()));
        assert(run.maps_plainly());
        assert(run.halftone_at(m, y) == self.halftone_at(m, y));
        let (sx, sy) = (x - self.destX + self.sourceX, y - self.destY + self.sourceY);
        assert(run.source_pixel(m, sx, sy) == self.source_pixel(m, sx, sy));
        let p = self.source_pixel(m, sx, sy) as sqInt;
        let color = self.map_pixel(m, p, self.mapper_flags()) as u32;
        assert(run.mapped_for(m, x, y) == color);
        run.lemma_map_pixel(m, x, y);
        assert(run.dest_pixel(m, x, y) == self.dest_pixel(m, x, y));
        assert(run.dest_pixel(after, x, y) == self.dest_pixel(after, x, y));
        self.lemma_made_same(run, color & self.halftone_at(m, y), self.dest_pixel(m, x, y));
    }

    /// A copy between 32-bit forms does so with the source pixel that belongs there.
    proof fn lemma_copy_pixel(self, m: Seq<u8>, x: int, y: int)
        requires
            self.copies_plainly(),
            !self.copies_up(),
            self.dest_form(m.len()),
            self.destDepth == 32,
            self.words_alone(),
            self.source_form(m.len()),
            self.reads_first(),
            self.halftone_apart(m.len()),
            self.has_pixel(x, y),
        ensures
            self.dest_pixel(self.looped(m).mem, x, y) == self.made_of(
                word_at(m, self.source_row(y - self.dy + self.sy) + 4 * (x - self.dx + self.sx))
                    & self.halftone_at(m, y),
                self.dest_pixel(m, x, y),
            ),
    {
        reveal(BitBlt::looped);
        let reg = self.copy_registers();
        let p = Picture { mem: m, count: reg.bitCount as int };
        self.lemma_copy_rows_done(m, p, self.bbH as int);
        let after = reg.copy_rows(p, self.bbH as int).mem;
        assert(self.looped(m).mem == after);
        self.lemma_words_done(m, after, self.copy_source(m), x, y);
        self.lemma_word_pixel(m, x, y);
        let msb = self.destMSB != 0;
        let v = (self.copy_source(m))(y - self.dy, x - self.dx);
        let (sx, row) = (x - self.dx + self.sx, self.source_row(y - self.dy + self.sy));
        let source = word_at(m, row + 4 * sx);
        let w = source & self.halftone_at(m, y);
        assert(self.dx as int / 1 == self.dx);
        assert(self.first_word() == self.dx);
        assert(self.halftone_row(m, y) == self.halftone_at(m, y));
        assert forall|t: int| 0 <= t < 32 implies #[trigger] stream_bit(msb, v, t) == stream_bit(
            msb,
            w,
            t,
        ) by {
            let b = 32 * x + t;
            assert(b / 32 == x && b % 32 == t);
            assert(self.covers(y, b));
            self.lemma_copy_source_bits(m, y, b);
            let c = b + (self.sx - self.dx) * 32;
            assert(c / 32 == sx && c % 32 == t);
            lemma_stream_bits(msb, source, self.halftone_at(m, y), t);
        }
        lemma_same_bits(msb, v, w);
    }

    /// A copy between two 32-bit forms, by any rule that looks at words alone, makes
    /// of every pixel that was asked for what the rule makes of it and of its source
    /// pixel, cut down to the halftone.
    pub proof fn lemma_copy_blit_by_rule(self, m: Seq<u8>, a: BlitArgs, x: int, y: int)
        requires
            !self.noSource,
            self.takes_no_argument(),
            !self.needs_pixmap(),
            self.destPPW == self.sourcePPW,
            self.sourceForm != self.destForm,
            self.destDepth == 32,
            self.clip_exact(),
            self.dest_whole(m.len()),
            self.source_whole(m.len()),
            self.beside(self.source_row(0), self.sourceHeight * self.sourcePitch),
            self.halftone_beside(m.len()),
            self.asks_for(x, y),
        ensures
            self.copied_bits(m, a).1,
            ({
                let source = word_at(
                    m,
                    self.source_row(y - self.destY + self.sourceY) + 4 * (x - self.destX
                        + self.sourceX),
                );
                self.dest_pixel(self.copied_bits(m, a).0.mem, x, y) == self.made_of(
                    source & self.halftone_at(m, y),
                    self.dest_pixel(m, x, y),
                )
            }),
    {
        let c = self.clipped();
        self.lemma_clip(x, y);
        let run = BitBlt { bitCount: 0, ..c.begun() };
        self.lemma_copy_ready(m.len());
        assert(c.begun().with_args(a) == (c.begun(), true));
        assert(!c.begun().is_quick());
        let after = self.copied_bits(m, a).0.mem;
        assert(after == run.looped(m).mem);
        assert(run.halftone_at(m, y) == self.halftone_at(m, y));
        run.lemma_copy_pixel(m, x, y);
        let (sx, sy) = (x - self.destX + self.sourceX, y - self.destY + self.sourceY);
        assert(y - run.dy + run.sy == sy && x - run.dx + run.sx == sx);
        assert(run.source_row(sy) == self.source_row(sy));
        let source = word_at(m, self.source_row(sy) + 4 * sx);
        assert(run.dest_pixel(m, x, y) == self.dest_pixel(m, x, y));
        assert(run.dest_pixel(after, x, y) == self.dest_pixel(after, x, y));
        self.lemma_made_same(run, source & self.halftone_at(m, y), self.dest_pixel(m, x, y));
    }

    /// The rules by their numbers: 18 and 19 add and subtract whole words, 24 mixes
    /// by the source's alpha, 25 paints, 26 erases where the source is filled, 34 to
    /// 36 put a source with its alpha worked in over the destination, and the rest
    /// go component by component.
    pub proof fn lemma_rules_by_number(self, s: u32, d: u32)
        ensures
            ({
                let v = self.made_of(s, d);
                let n = self.combinationRule;
                &&& n == 18 ==> (v as int - s as int - d as int) % 0x1_0000_0000 == 0
                &&& n == 19 ==> (v as int + d as int - s as int) % 0x1_0000_0000 == 0
                &&& n == 20 ==> v == self.add_components(s, d)
                &&& n == 21 ==> v == self.by_components(distance(), s, d)
                &&& n == 22 || n == 32 ==> v == d
                &&& n == 24 ==> v == alpha_blend(s, d)
                &&& n == 25 ==> v == self.paint(s, d)
                &&& n == 27 ==> v == self.by_components(larger(), s, d)
                &&& n == 28 ==> v == self.by_components(smaller(), s, d)
                &&& n == 29 ==> v == self.by_components(smaller(), !s, d)
                &&& n == 34 || n == 35 || n == 36 ==> v == alpha_blend_scaled(s, d)
                &&& n == 37 ==> v == self.multiply_components(s, d)
                &&& n == 38 ==> v == self.reversed_pixels(d)
                &&& n == 39 ==> v == self.clear_equal(s, d)
                &&& n == 40 && self.destDepth == 32 ==> v == if d < 0x100_0000 && d != 0 {
                    d + (s - s as int % 0x100_0000)
                } else {
                    d as int
                }
            }),
    {
        lemma_masked_rules(0, s, d);
    }
}

} // verus!
