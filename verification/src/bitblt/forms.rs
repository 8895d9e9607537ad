//! What a blit makes of a form, bit by bit.
//!
//! With a rule from 0 to 15 every bit of the blit's rectangle becomes what the
//! rule makes of it and of the bit of the source that belongs there. Every
//! other bit stays as it was.
use vstd::prelude::*;
use crate::prim::UsqInt;
use crate::bitblt::memory::{valid_word, word_at};
use crate::bitblt::state::{BitBlt, ALL_ONES};
use crate::bitblt::engine::Picture;
use crate::bitblt::bits::{row_bit, rule_bit, stream_bit};
use crate::bitblt::grid::Grid;

verus! {

broadcast use crate::bitblt::memory::group_memory;

impl BitBlt {
    /// The address of a row of the destination.
    pub open spec fn dest_row(self, y: int) -> int {
        self.destBits + y * self.destPitch
    }

    /// The clipped blit lies within a destination form, and the form within a
    /// memory of this size.
    pub open spec fn dest_form(self, size: nat) -> bool {
        &&& self.whole_pixels()
        &&& 0 <= self.dx && 0 <= self.dy
        &&& 1 <= self.bbW && 0 <= self.bbH
        &&& self.dx + self.bbW <= i32::MAX && self.dy + self.bbH <= i32::MAX
        &&& 4 <= self.destPitch && self.destPitch % 4 == 0
        &&& (self.dx + self.bbW) * self.destDepth <= 8 * self.destPitch
        &&& self.dest_row(self.dy + self.bbH) <= size
        &&& size <= UsqInt::MAX
    }

    /// Whether a bit of a row of the destination is within the blit.
    pub open spec fn covers(self, y: int, b: int) -> bool {
        self.dy <= y < self.dy + self.bbH && self.in_columns(b)
    }

    /// The words that the blit writes, from the top row down or from the bottom
    /// row up.
    pub open spec fn dest_grid(self, up: bool) -> Grid {
        Grid {
            base: self.dest_row(
                if up {
                    self.dy + self.bbH - 1
                } else {
                    self.dy as int
                },
            ) + 4 * self.first_word(),
            step: if up {
                -self.destPitch
            } else {
                self.destPitch as int
            },
            stride: 4,
            rows: self.bbH as int,
            words: self.last_word() - self.first_word() + 1,
        }
    }

    /// Which row of the grid a row of the destination is.
    pub open spec fn grid_row(self, up: bool, y: int) -> int {
        if up {
            self.dy + self.bbH - 1 - y
        } else {
            y - self.dy
        }
    }

    /// The words of a row lie within the row.
    pub(crate) proof fn lemma_words_in_row(self, size: nat)
        requires
            self.dest_form(size),
        ensures
            0 <= self.first_word() <= self.last_word(),
            4 * self.last_word() + 4 <= self.destPitch,
            32 * self.first_word() <= self.dx * self.destDepth,
            (self.dx + self.bbW) * self.destDepth <= 32 * self.last_word() + 32,
    {
        let last = self.dx + self.bbW - 1;
        self.lemma_row_words();
        self.lemma_pixel_place(self.dx as int);
        self.lemma_pixel_place(last);
        assert((last + 1) * self.destDepth == last * self.destDepth + self.destDepth)
            by (nonlinear_arith);
    }

    /// The address of a word of the grid, from its row and its place there.
    pub(crate) proof fn lemma_grid_addr(self, up: bool, y: int, k: int)
        ensures
            self.dest_grid(up).addr(self.grid_row(up, y), k) == self.dest_row(y) + 4 * (
            self.first_word() + k),
    {
        let p = self.destPitch as int;
        if up {
            let top = self.dy + self.bbH - 1;
            assert(top * p + (top - y) * (-p) == y * p) by (nonlinear_arith);
        } else {
            assert(self.dy * p + (y - self.dy) * p == y * p) by (nonlinear_arith);
        }
    }

    /// The rows of the blit lie within the form.
    pub(crate) proof fn lemma_row_in_form(self, size: nat, y: int)
        requires
            self.dest_form(size),
            self.dy <= y < self.dy + self.bbH,
        ensures
            0 <= self.dest_row(y),
            self.dest_row(self.dy as int) <= self.dest_row(y),
            self.dest_row(y) + self.destPitch <= self.dest_row(self.dy + self.bbH) <= size,
    {
        let p = self.destPitch as int;
        assert(self.dy * p <= y * p && 0 <= self.dy * p && y * p + p <= (self.dy + self.bbH) * p)
            by (nonlinear_arith)
            requires
                0 <= self.dy <= y,
                y + 1 <= self.dy + self.bbH,
                0 <= p,
        ;
    }

    /// The grid is one of separate words of the memory.
    pub(crate) proof fn lemma_dest_grid(self, size: nat, up: bool)
        requires
            self.dest_form(size),
        ensures
            self.dest_grid(up).apart(),
            self.dest_grid(up).within(size),
    {
        let g = self.dest_grid(up);
        self.lemma_words_in_row(size);
        assert forall|i: int, k: int| g.has(i, k) implies 0 <= #[trigger] g.addr(i, k) && g.addr(
            i,
            k,
        ) + 4 <= size by {
            let y = if up {
                self.dy + self.bbH - 1 - i
            } else {
                self.dy + i
            };
            self.lemma_grid_addr(up, y, k);
            self.lemma_row_in_form(size, y);
        }
    }

    /// The words that the loops leave, for these source words.
    pub open spec fn ruled_words(self, m: Seq<u8>, g: Grid, s: spec_fn(int, int) -> u32) -> spec_fn(
        int,
        int,
    ) -> u32 {
        |i: int, k: int|
            self.ruled(
                self.with_dest_masks().word_mask(k),
                s(i, k),
                word_at(m, g.addr(i, k)),
            )
    }

    /// A word of a row at another place of the same form.
    proof fn lemma_other_word(self, size: nat, up: bool, y: int, c: int)
        requires
            self.dest_form(size),
            0 <= c,
            4 * c + 4 <= self.destPitch,
            !(self.dy <= y < self.dy + self.bbH) || !(self.first_word() <= c <= self.last_word()),
        ensures
            self.dest_grid(up).clear_of(self.bbH as int, 0, self.dest_row(y) + 4 * c),
    {
        let g = self.dest_grid(up);
        let f = self.dest_row(y) + 4 * c;
        self.lemma_words_in_row(size);
        assert forall|j: int, l: int| g.before(j, l, self.bbH as int, 0) implies (#[trigger] g.addr(
            j,
            l,
        )) + 4 <= f || f + 4 <= g.addr(j, l) by {
            let z = if up {
                self.dy + self.bbH - 1 - j
            } else {
                self.dy + j
            };
            self.lemma_grid_addr(up, z, l);
            self.lemma_rows_apart(z, self.first_word() + l, y, c);
        }
    }

    /// Two words at different places of a form share no byte.
    pub(crate) proof fn lemma_rows_apart(self, y: int, c: int, z: int, e: int)
        requires
            0 <= c,
            0 <= e,
            4 * c + 4 <= self.destPitch,
            4 * e + 4 <= self.destPitch,
            y != z || c != e,
        ensures
            self.dest_row(y) + 4 * c + 4 <= self.dest_row(z) + 4 * e || self.dest_row(z) + 4 * e + 4
                <= self.dest_row(y) + 4 * c,
    {
        let p = self.destPitch as int;
        if y < z {
            assert(y * p + p <= z * p) by (nonlinear_arith)
                requires
                    y + 1 <= z,
                    0 <= p,
            ;
        } else if z < y {
            assert(z * p + p <= y * p) by (nonlinear_arith)
                requires
                    z + 1 <= y,
                    0 <= p,
            ;
        }
    }

    /// What is known of the words is known of the bits: within the blit a bit is
    /// what the rule makes of it and of the source word's bit, everywhere else in
    /// the form it stays. Nothing outside the rows of the blit changes.
    pub(crate) proof fn lemma_by_bits(
        self,
        m: Seq<u8>,
        after: Seq<u8>,
        up: bool,
        s: spec_fn(int, int) -> u32,
        y: int,
        b: int,
    )
        requires
            self.dest_form(m.len()),
            0 <= self.combinationRule <= 15,
            self.dest_grid(up).done(
                m,
                after,
                self.bbH as int,
                0,
                self.ruled_words(m, self.dest_grid(up), s),
            ),
            0 <= b < 8 * self.destPitch,
            0 <= self.dest_row(y),
            self.dest_row(y) + self.destPitch <= m.len(),
        ensures
            row_bit(after, self.destMSB != 0, self.dest_row(y), b) == (if self.covers(y, b) {
                rule_bit(
                    self.combinationRule as int,
                    stream_bit(
                        self.destMSB != 0,
                        s(self.grid_row(up, y), b / 32 - self.first_word()),
                        b % 32,
                    ),
                    row_bit(m, self.destMSB != 0, self.dest_row(y), b),
                )
            } else {
                row_bit(m, self.destMSB != 0, self.dest_row(y), b)
            }),
    {
        let g = self.dest_grid(up);
        let w = self.ruled_words(m, g, s);
        let c = b / 32;
        let t = b % 32;
        let f = self.dest_row(y) + 4 * c;
        self.lemma_words_in_row(m.len());
        assert(4 * c + 4 <= self.destPitch) by {
            assert(c * 32 <= b);
        }
        if self.dy <= y < self.dy + self.bbH && self.first_word() <= c <= self.last_word() {
            let i = self.grid_row(up, y);
            let k = c - self.first_word();
            self.lemma_grid_addr(up, y, k);
            assert(g.before(i, k, self.bbH as int, 0));
            assert(word_at(after, g.addr(i, k)) == w(i, k));
            self.lemma_row_words();
            self.lemma_row_masks(k, t);
            self.lemma_ruled_bits(
                self.with_dest_masks().word_mask(k),
                s(i, k),
                word_at(m, f),
                t,
            );
        } else {
            self.lemma_other_word(m.len(), up, y, c);
            g.lemma_clear_word(m, after, self.bbH as int, 0, w, f);
            assert(!self.covers(y, b));
        }
    }

    /// Nothing outside the rows of the blit changes, at any point of it.
    pub(crate) proof fn lemma_rows_only(
        self,
        m: Seq<u8>,
        after: Seq<u8>,
        up: bool,
        i: int,
        k: int,
        w: spec_fn(int, int) -> u32,
        a: int,
    )
        requires
            self.dest_form(m.len()),
            self.dest_grid(up).done(m, after, i, k, w),
            0 <= a < m.len(),
            !(self.dest_row(self.dy as int) <= a < self.dest_row(self.dy + self.bbH)),
        ensures
            after[a] == m[a],
    {
        let g = self.dest_grid(up);
        self.lemma_words_in_row(m.len());
        if g.touched(i, k, a) {
            let (j, l) = choose|j: int, l: int|
                g.before(j, l, i, k) && (#[trigger] g.addr(j, l)) <= a < g.addr(j, l) + 4;
            let z = if up {
                self.dy + self.bbH - 1 - j
            } else {
                self.dy + j
            };
            self.lemma_grid_addr(up, z, l);
            self.lemma_row_in_form(m.len(), z);
        }
    }

    /// Nothing outside the rows of the blit has changed.
    pub open spec fn rows_alone(self, m: Seq<u8>, now: Seq<u8>) -> bool {
        &&& now.len() == m.len()
        &&& forall|a: int|
            0 <= a < m.len() && !(self.dest_row(self.dy as int) <= a < self.dest_row(
                self.dy + self.bbH,
            )) ==> #[trigger] now[a] == m[a]
    }

    /// A word outside the rows of the blit is as it was.
    pub(crate) proof fn lemma_kept_word(self, m: Seq<u8>, now: Seq<u8>, f: int)
        requires
            self.rows_alone(m, now),
            valid_word(m, f),
            f + 4 <= self.dest_row(self.dy as int) || self.dest_row(self.dy + self.bbH) <= f,
        ensures
            word_at(now, f) == word_at(m, f),
    {
        reveal(word_at);
        assert(now[f] == m[f] && now[f + 1] == m[f + 1] && now[f + 2] == m[f + 2] && now[f + 3]
            == m[f + 3]);
    }

    /// A word outside the rows of the blit is as it was, at any point of it.
    pub(crate) proof fn lemma_word_outside(
        self,
        m: Seq<u8>,
        now: Seq<u8>,
        i: int,
        k: int,
        w: spec_fn(int, int) -> u32,
        f: int,
    )
        requires
            self.dest_form(m.len()),
            self.dest_grid(false).done(m, now, i, k, w),
            valid_word(m, f),
            f + 4 <= self.dest_row(self.dy as int) || self.dest_row(self.dy + self.bbH) <= f,
        ensures
            word_at(now, f) == word_at(m, f),
    {
        reveal(word_at);
        self.lemma_rows_only(m, now, false, i, k, w, f);
        self.lemma_rows_only(m, now, false, i, k, w, f + 1);
        self.lemma_rows_only(m, now, false, i, k, w, f + 2);
        self.lemma_rows_only(m, now, false, i, k, w, f + 3);
    }

    // ---- Fills ------------------------------------------------------------

    /// The halftone can be read, and no word of it is one that the blit writes.
    pub open spec fn halftone_apart(self, size: nat) -> bool {
        self.noHalftone || {
            &&& 0 < self.halftoneHeight
            &&& self.halftoneBase + 4 * self.halftoneHeight <= size
            &&& self.halftoneBase + 4 * self.halftoneHeight <= self.dest_row(self.dy as int)
                || self.dest_row(self.dy + self.bbH) <= self.halftoneBase
        }
    }

    /// The halftone words stay as they are while a blit is under way.
    pub(crate) proof fn lemma_halftone_stays(
        self,
        m: Seq<u8>,
        now: Seq<u8>,
        up: bool,
        i: int,
        w: spec_fn(int, int) -> u32,
        n: int,
    )
        requires
            self.dest_form(m.len()),
            self.halftone_apart(m.len()),
            !self.noHalftone,
            self.dest_grid(up).done(m, now, i, 0, w),
            0 <= n < self.halftoneHeight,
        ensures
            word_at(now, self.halftoneBase + n * 4) == word_at(m, self.halftoneBase + n * 4),
    {
        let g = self.dest_grid(up);
        let f = self.halftoneBase + n * 4;
        self.lemma_words_in_row(m.len());
        assert forall|j: int, l: int| g.before(j, l, i, 0) implies (#[trigger] g.addr(j, l)) + 4
            <= f || f + 4 <= g.addr(j, l) by {
            let z = if up {
                self.dy + self.bbH - 1 - j
            } else {
                self.dy + j
            };
            self.lemma_grid_addr(up, z, l);
            self.lemma_row_in_form(m.len(), z);
        }
        g.lemma_clear_word(m, now, i, 0, w, f);
    }

    /// The source words of a fill.
    pub open spec fn fill_source(self, m: Seq<u8>) -> spec_fn(int, int) -> u32 {
        |i: int, k: int| self.halftone_at(m, self.dy + i)
    }

    proof fn lemma_fill_words_done(
        self,
        m: Seq<u8>,
        p: Picture,
        h: u32,
        i: int,
        k: int,
    )
        requires
            self.dest_form(m.len()),
            self.word_by_word(),
            0 <= i < self.bbH,
            0 <= k <= self.dest_grid(false).words,
            h == self.halftone_at(m, self.dy + i),
            self.dest_grid(false).done(
                m,
                p.mem,
                i,
                0,
                self.ruled_words(m, self.dest_grid(false), self.fill_source(m)),
            ),
        ensures
            self.dest_grid(false).done(
                m,
                self.with_dest_masks().fill_words(
                    h,
                    p,
                    self.dest_grid(false).addr(i, 0),
                    k,
                ).mem,
                i,
                k,
                self.ruled_words(m, self.dest_grid(false), self.fill_source(m)),
            ),
        decreases k,
    {
        let g = self.dest_grid(false);
        let w = self.ruled_words(m, g, self.fill_source(m));
        let set = self.with_dest_masks();
        if k > 0 {
            self.lemma_fill_words_done(m, p, h, i, k - 1);
            self.lemma_dest_grid(m.len(), false);
            let q = set.fill_words(h, p, g.addr(i, 0), k - 1);
            g.lemma_own_word(m, q.mem, i, k - 1, w);
            self.lemma_whole_masks(k - 1);
            set.lemma_stores_ruled(set.word_mask(k - 1), q, g.addr(i, k - 1), h);
            self.lemma_ruled_same(
                set,
                set.word_mask(k - 1),
                h,
                word_at(m, g.addr(i, k - 1)),
            );
            g.lemma_step(m, q.mem, i, k - 1, w);
        }
    }

    /// The masks of pixels that are whole words have all bits set.
    pub(crate) proof fn lemma_whole_masks(self, k: int)
        requires
            self.whole_pixels(),
            1 <= self.bbW,
        ensures
            self.destDepth == 32 ==> self.with_dest_masks().word_mask(k) == ALL_ONES,
    {
        if self.destDepth == 32 {
            crate::bitblt::merge::lemma_ppw_bound(self);
            self.lemma_pixels_from(self.dx as int);
            self.lemma_pixels_from(self.dx + self.bbW - 1);
            crate::bitblt::merge::lemma_shift_zero(ALL_ONES);
            assert(self.pixels_from(self.dx as int) == 1);
            assert(self.pixels_to(self.dx + self.bbW - 1) == 1);
        }
    }

    /// What a rule that looks at words alone makes of a word does not depend on
    /// the masks and the counts of a loop.
    pub(crate) proof fn lemma_ruled_same(self, other: BitBlt, mask: u32, s: u32, d: u32)
        requires
            self.combinationRule == other.combinationRule,
            0 <= self.combinationRule <= 15 || (self.words_alone() && other.destDepth
                == self.destDepth && other.destPPW == self.destPPW && other.destMSB == self.destMSB
                && other.sourceAlpha == self.sourceAlpha),
        ensures
            self.ruled(mask, s, d) == other.ruled(mask, s, d),
    {
        reveal(BitBlt::merge);
    }

    pub(crate) proof fn lemma_fill_rows_done(self, m: Seq<u8>, p: Picture, i: int)
        requires
            self.dest_form(m.len()),
            self.word_by_word(),
            self.halftone_apart(m.len()),
            p.mem == m,
            0 <= i <= self.bbH,
        ensures
            self.dest_grid(false).done(
                m,
                self.with_dest_masks().fill_rows(p, i).mem,
                i,
                0,
                self.ruled_words(m, self.dest_grid(false), self.fill_source(m)),
            ),
        decreases i,
    {
        let g = self.dest_grid(false);
        let w = self.ruled_words(m, g, self.fill_source(m));
        let set = self.with_dest_masks();
        if i == 0 {
            g.lemma_begin(m, w);
        } else {
            self.lemma_fill_rows_done(m, p, i - 1);
            let q = set.fill_rows(p, i - 1);
            let h = set.halftone_at(q.mem, set.dy + i - 1);
            if !self.noHalftone {
                let n = (self.dy + i - 1) % self.halftoneHeight as int;
                crate::bitblt::engine::lemma_remainder(
                    self.dy + i - 1,
                    self.halftoneHeight as int,
                );
                self.lemma_halftone_stays(m, q.mem, false, i - 1, w, n);
            }
            assert(h == self.halftone_at(m, self.dy + i - 1));
            self.lemma_row_words();
            self.lemma_forward_grid(m.len(), i - 1);
            self.lemma_fill_words_done(m, q, h, i - 1, g.words);
            let row = set.fill_words(h, q, g.addr(i - 1, 0), g.words);
            g.lemma_turn(m, row.mem, i - 1, w);
        }
    }

    /// The loops that run from left to right and from top to bottom start each
    /// row where the grid says.
    pub(crate) proof fn lemma_forward_grid(self, size: nat, i: int)
        requires
            self.dest_form(size),
            0 <= i <= self.bbH,
            1 <= self.bbH,
        ensures
            self.with_dest_masks().forward_row(i) == self.dest_grid(false).addr(i, 0),
            self.with_dest_masks().row_words() == self.dest_grid(false).words,
            self.with_dest_masks().destIndex == self.dest_grid(false).base,
    {
        let set = self.with_dest_masks();
        self.lemma_row_words();
        self.lemma_words_in_row(size);
        self.lemma_pixel_place(self.dx as int);
        self.lemma_row_in_form(size, self.dy as int);
        let at = self.dest_word_addr(self.dx as int, self.dy as int);
        assert(at == self.dest_grid(false).base);
        assert(set.destDelta == self.destPitch - 4 * set.nWords);
    }

    /// What the rule counts over the whole blit fits a machine word.
    pub open spec fn counts_fit(self) -> bool {
        self.count_fits(
            self.bitCount as int,
            self.bbH * (self.last_word() - self.first_word() + 1),
        )
    }

    /// Within its form, a blit without a source can be carried out.
    pub proof fn lemma_fill_runs(self, size: nat)
        requires
            self.noSource,
            self.dest_form(size),
            self.merge_ok(size),
            self.halftone_ok(size),
            self.counts_fit(),
        ensures
            self.loop_ok(size),
    {
        reveal(BitBlt::loop_ok);
        let set = self.with_dest_masks();
        let g = self.dest_grid(false);
        self.lemma_row_words();
        if self.bbH > 0 {
            self.lemma_dest_grid(size, false);
            assert forall|i: int, k: int|
                0 <= i < set.bbH && 0 <= k < set.row_words() implies 0 <= #[trigger] set.forward_word(
                i,
                k,
            ) && set.forward_word(i, k) + 4 <= size by {
                self.lemma_forward_grid(size, i);
                assert(g.has(i, k));
                assert(g.addr(i, k) == g.addr(i, 0) + 4 * k);
            }
        }
        assert(set.forward_rows_ok(size));
        assert(set.row_words() == g.words);
    }

    /// A blit without a source fills its rectangle with the halftone, or with
    /// ones, by the rule. Every other bit of the form stays, and so does the
    /// memory outside the rows of the blit.
    pub proof fn lemma_fill(self, m: Seq<u8>, y: int, b: int, a: int)
        requires
            self.noSource,
            0 <= self.combinationRule <= 15,
            self.dest_form(m.len()),
            self.halftone_apart(m.len()),
            0 <= b < 8 * self.destPitch,
            0 <= self.dest_row(y),
            self.dest_row(y) + self.destPitch <= m.len(),
            0 <= a < m.len(),
        ensures
            row_bit(self.looped(m).mem, self.destMSB != 0, self.dest_row(y), b) == (
            if self.covers(y, b) {
                rule_bit(
                    self.combinationRule as int,
                    stream_bit(self.destMSB != 0, self.halftone_at(m, y), b % 32),
                    row_bit(m, self.destMSB != 0, self.dest_row(y), b),
                )
            } else {
                row_bit(m, self.destMSB != 0, self.dest_row(y), b)
            }),
            !(self.dest_row(self.dy as int) <= a < self.dest_row(self.dy + self.bbH))
                ==> self.looped(m).mem[a] == m[a],
    {
        reveal(BitBlt::looped);
        let set = self.with_dest_masks();
        let p = Picture { mem: m, count: set.bitCount as int };
        self.lemma_fill_rows_done(m, p, self.bbH as int);
        let after = set.fill_rows(p, self.bbH as int).mem;
        assert(self.looped(m).mem == after);
        self.lemma_by_bits(m, after, false, self.fill_source(m), y, b);
        if !(self.dest_row(self.dy as int) <= a < self.dest_row(self.dy + self.bbH)) {
            self.lemma_rows_only(
                m,
                after,
                false,
                self.bbH as int,
                0,
                self.ruled_words(m, self.dest_grid(false), self.fill_source(m)),
                a,
            );
        }
    }
}

} // verus!
