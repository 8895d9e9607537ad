//! What displaying a string makes of the destination: the same as a blit of every
//! glyph at the place the string has come to.
use vstd::prelude::*;
use crate::prim::sqInt;
use crate::bitblt::bits::{row_bit, rule_bit, stream_bit, word_bit};
use crate::bitblt::blit::{or_zero, BlitArgs};
use crate::bitblt::engine::Picture;
use crate::bitblt::load::small;
use crate::bitblt::state::BitBlt;
use crate::bitblt::text::Text;

verus! {

impl BitBlt {
    /// The registers of a string under way: the ends of the forms are noted, and
    /// no surface is locked.
    pub open spec fn text_settled(self) -> bool {
        self.with_ends() == self && !self.hasSurfaceLock
    }

    /// The rule is one that a glyph is drawn by in the same way however it is
    /// drawn: one that counts nothing, and none that has a short cut.
    pub open spec fn text_rule(self) -> bool {
        &&& self.combinationRule != 22 && self.combinationRule != 32
        &&& self.combinationRule != 30 && self.combinationRule != 31
        &&& self.combinationRule != 41
        &&& !self.is_quick()
    }

    /// A glyph is drawn as a blit of its rectangle would draw it, whichever way it
    /// is drawn.
    pub proof fn lemma_glyph_like_copy(self, m: Seq<u8>, a: BlitArgs, quick: bool)
        requires
            self.text_settled(),
            quick ==> self.is_quick_text() && self.text_rule() && self.bitCount == 0,
        ensures
            self.drawn_glyph(m, a, quick).mem == self.copied_bits(m, a).0.mem,
            self.drawn_glyph(m, a, quick).ok == self.copied_bits(m, a).1,
    {
        reveal(BitBlt::drawn_glyph);
        let c = self.clipped();
        assert(c.begun() == c);
        if quick && !c.is_empty_blit() {
            reveal(BitBlt::looped);
            assert(c.with_args(a) == (c, true));
            let set = c.with_dest_masks();
            assert(!c.is_quick());
            assert(BitBlt { bitCount: 0, ..c } == c);
            assert(set.with_direction() == set);
            assert(c.loop_registers() == set);
            assert(c.needs_pixmap());
        }
    }

    /// A glyph that goes straight to the general loop combines exactly the pixels
    /// that are asked for with their source pixels, taken through the color map.
    /// Every other bit of the form stays, and so does all memory beside the form.
    pub proof fn lemma_glyph_pixels(self, m: Seq<u8>, a: BlitArgs, y: int, b: int, at: int)
        requires
            self.is_quick_text(),
            0 <= self.combinationRule <= 15,
            self.clip_exact(),
            self.dest_whole(m.len()),
            self.source_whole(m.len()),
            self.beside(self.source_row(0), self.sourceHeight * self.sourcePitch),
            self.tables_beside(m.len()),
            self.halftone_beside(m.len()),
            0 <= y < self.destHeight,
            0 <= b < 8 * self.destPitch,
            0 <= at < m.len(),
        ensures
            self.drawn_glyph(m, a, true).ok,
            ({
                let after = self.drawn_glyph(m, a, true).mem;
                let msb = self.destMSB != 0;
                let before = row_bit(m, msb, self.dest_row(y), b);
                let x = b / (self.destDepth as int);
                let color = self.map_pixel(
                    m,
                    self.source_pixel(
                        m,
                        x - self.destX + self.sourceX,
                        y - self.destY + self.sourceY,
                    ) as sqInt,
                    self.mapper_flags(),
                ) as u32;
                &&& row_bit(after, msb, self.dest_row(y), b) == (if self.asks_for(x, y) {
                    rule_bit(
                        self.combinationRule as int,
                        word_bit(color, self.pixel_place_bit(b % (self.destDepth as int)))
                            && stream_bit(msb, self.halftone_at(m, y), b % 32),
                        before,
                    )
                } else {
                    before
                })
                &&& self.beside(at, 1) ==> after[at] == m[at]
            }),
    {
        reveal(BitBlt::drawn_glyph);
        let c = self.clipped();
        let x = b / (self.destDepth as int);
        self.lemma_asked_bit(y, b);
        self.lemma_clip(x, y);
        if !c.is_empty_blit() {
            self.lemma_glyph_loop(m);
            self.lemma_left_in_form(m.len());
            self.lemma_left_in_source(m.len());
            self.lemma_row_there(m.len(), y);
            assert(c.dest_row(c.dy + c.bbH) == self.dest_row(c.dy + c.bbH));
            assert(c.dest_row(c.dy as int) == self.dest_row(c.dy as int));
            assert(c.source_row(c.sy + c.bbH) == self.source_row(c.sy + c.bbH));
            assert(c.source_row(c.sy as int) == self.source_row(c.sy as int));
            assert(c.dest_row(y) == self.dest_row(y));
            assert(c.map_source_form(m.len()));
            assert(c.mapper_flags() == self.mapper_flags());
            assert(c.map_aside(m.len()));
            assert(c.halftone_apart(m.len()));
            assert(c.maps_plainly());
            assert(c.halftone_at(m, y) == self.halftone_at(m, y));
            let (sx, sy) = (x - self.destX + self.sourceX, y - self.destY + self.sourceY);
            assert(c.source_pixel(m, sx, sy) == self.source_pixel(m, sx, sy));
            let p = self.source_pixel(m, sx, sy) as sqInt;
            assert(c.map_pixel(m, p, self.mapper_flags()) == self.map_pixel(
                m,
                p,
                self.mapper_flags(),
            ));
            c.lemma_map(m, y, b, at);
        }
    }

    /// Going straight to the general loop is what a copy loop comes to.
    proof fn lemma_glyph_loop(self, m: Seq<u8>)
        requires
            self.is_quick_text(),
        ensures
            self.clipped().quick_glyph(m).mem == self.clipped().looped(m).mem,
    {
        reveal(BitBlt::looped);
        let c = self.clipped();
        let set = c.with_dest_masks();
        assert(set.with_direction() == set);
        assert(c.loop_registers() == set);
        assert(c.needs_pixmap());
    }

    // ---- Strings ----------------------------------------------------------

    /// The registers of a string that starts with `start`, under way: only the
    /// place along the row and the glyph have changed.
    pub open spec fn text_under_way(self, start: BitBlt) -> bool {
        &&& self.text_settled()
        &&& self.draws_like(BitBlt { sourceX: self.sourceX, width: self.width, ..start })
        &&& self.destY == start.destY
        &&& start.is_quick_text() ==> self.bitCount == 0
    }

    /// Registers that draw the same, with the same ends noted.
    spec fn stays_like(self, other: BitBlt) -> bool {
        &&& self.draws_like(other)
        &&& self.destX == other.destX && self.destY == other.destY
        &&& self.endOfSource == other.endOfSource
        &&& self.endOfDestination == other.endOfDestination
        &&& self.hasSurfaceLock == other.hasSurfaceLock
    }

    proof fn lemma_locked_keeps(self, m: Seq<u8>, a: BlitArgs)
        ensures
            self.locked_blit(m, a).0.bb.stays_like(self),
    {
        reveal(BitBlt::looped);
    }

    proof fn lemma_quick_keeps(self, m: Seq<u8>)
        requires
            self.dest_wf(),
            1 <= self.bbW,
            0 <= self.bbH,
            self.bitCount == 0,
            self.combinationRule != 22,
            self.combinationRule != 32,
        ensures
            self.quick_glyph(m).bb.stays_like(self),
            self.quick_glyph(m).bb.bitCount == 0,
    {
        let set = self.with_dest_masks();
        let p = Picture { mem: m, count: 0 };
        set.lemma_pix_rows(p, set.bbH as int);
        assert(set.bbH * set.row_words() * 0 == 0);
    }

    proof fn lemma_stays_settled(self, other: BitBlt, start: BitBlt)
        requires
            other.text_under_way(start),
            self.stays_like(other),
            start.is_quick_text() ==> self.bitCount == 0,
        ensures
            self.text_under_way(start),
    {
        assert(self.source_end() == other.source_end());
        assert(self.dest_end() == other.dest_end());
        assert(other.with_ends().endOfSource == other.endOfSource);
        assert(other.with_ends().endOfDestination == other.endOfDestination);
        assert(self.with_ends() == self);
    }

    /// Drawing a glyph keeps the registers of the string.
    proof fn lemma_glyph_keeps(self, m: Seq<u8>, a: BlitArgs, start: BitBlt)
        requires
            self.text_under_way(start),
            start.is_quick_text() ==> start.text_rule(),
            self.glyph_ok(m.len(), a, start.is_quick_text()),
        ensures
            self.drawn_glyph(m, a, start.is_quick_text()).bb.text_under_way(start),
    {
        let quick = start.is_quick_text();
        let c = self.clipped();
        assert(c.stays_like(self));
        c.lemma_stays_settled(self, start);
        let done = self.drawn_glyph(m, a, quick).bb;
        assert(done.stays_like(c) && (quick ==> done.bitCount == 0)) by {
            reveal(BitBlt::drawn_glyph);
            reveal(BitBlt::glyph_ok);
            if !c.is_empty_blit() {
                if quick {
                    c.lemma_quick_keeps(m);
                } else {
                    c.lemma_locked_keeps(m, a);
                }
            }
        }
        done.lemma_stays_settled(c, start);
    }

    proof fn lemma_text_keeps(self, m: Seq<u8>, t: Text, a: BlitArgs, n: int)
        requires
            self.text_ok(m, t, a),
            0 <= n <= t.count(),
            self.text_state(m, t, a, n).ok,
            self.is_quick_text() ==> !self.hasSurfaceLock && self.bitCount == 0
                && self.text_rule(),
        ensures
            self.text_state(m, t, a, n).bb.text_under_way(self),
        decreases n,
    {
        if n > 0 {
            let q = self.text_state(m, t, a, n - 1);
            assert(q.ok);
            self.lemma_text_keeps(m, t, a, n - 1);
            let g = or_zero(t.glyph(n - 1)) as int;
            let set = q.bb.with_glyph(t.edges[g], t.edges[g + 1]);
            assert(set.with_ends() == set);
            assert(set.text_under_way(self));
            set.lemma_glyph_keeps(q.mem, a, self);
            let drawn = set.drawn_glyph(q.mem, a, self.is_quick_text());
            let next = self.text_state(m, t, a, n).bb;
            assert(next == BitBlt { destX: next.destX, ..drawn.bb });
            assert(next.with_ends() == next);
        } else {
            let begun = self.text_begun();
            assert(begun.with_ends() == begun);
        }
    }

    /// Displaying a character comes to a blit of its glyph: from the glyph's left
    /// edge in the source to its right edge, at the place where the characters
    /// before have ended, onto what they have left. The forms, the rule, the color
    /// map, the row and the clipping rectangle are those of the string.
    pub proof fn lemma_text_like_copies(
        self,
        m: Seq<u8>,
        t: Text,
        a: BlitArgs,
        n: int,
    ) -> (there: BitBlt)
        requires
            self.text_ok(m, t, a),
            0 <= n < t.count(),
            self.text_state(m, t, a, n + 1).ok,
            self.is_quick_text() ==> !self.hasSurfaceLock && self.bitCount == 0
                && self.text_rule(),
        ensures
            self.text_state(m, t, a, 0).mem == m,
            self.text_state(m, t, a, n).ok,
            t.glyph(n) is Some,
            t.edges[t.glyph(n)->0 as int] is Some,
            t.edges[t.glyph(n)->0 + 1] is Some,
            there.sourceX == t.edges[t.glyph(n)->0 as int]->0,
            there.sourceX + there.width == t.edges[t.glyph(n)->0 + 1]->0,
            there.destX == self.destX + t.advance(n),
            there.destY == self.destY,
            there.draws_like(BitBlt { sourceX: there.sourceX, width: there.width, ..self }),
            there.copied_bits(self.text_state(m, t, a, n).mem, a).1,
            self.text_state(m, t, a, n + 1).mem == there.copied_bits(
                self.text_state(m, t, a, n).mem,
                a,
            ).0.mem,
    {
        let q = self.text_state(m, t, a, n);
        assert(q.ok);
        self.lemma_text_advances(m, t, a, n);
        self.lemma_text_keeps(m, t, a, n);
        let g = or_zero(t.glyph(n)) as int;
        assert(t.has_glyph(g));
        assert(small(or_zero(t.edges[g]) as int) && small(or_zero(t.edges[g + 1]) as int));
        let there = q.bb.with_glyph(t.edges[g], t.edges[g + 1]);
        assert(there.with_ends() == there);
        there.lemma_glyph_like_copy(q.mem, a, self.is_quick_text());
        there
    }
}

} // verus!
