//! What a copy between forms of one depth makes of the destination, bit by bit.
//!
//! Source and destination may be one form. The loop takes its rows from the top
//! or from the bottom so that it reads every bit of the source before it writes
//! there; it is as if the source had been read whole before.
use vstd::prelude::*;
use crate::prim::sqInt;
use crate::bitblt::memory::word_at;
use crate::bitblt::state::{shift_word, shl_word, shr_word, BitBlt, ALL_ONES};
use crate::bitblt::engine::Picture;
use crate::bitblt::bits::{
    lemma_same_bits, lemma_stream_bits, lemma_stream_shift, row_bit, rule_bit, stream_bit,
};

verus! {

broadcast use crate::bitblt::memory::group_memory;

impl BitBlt {
    /// The address of a row of the source.
    pub open spec fn source_row(self, y: int) -> int {
        self.sourceBits + y * self.sourcePitch
    }

    /// The source has the depth and the bit order of the destination and no color
    /// map, and the blit does not have to run from right to left.
    pub open spec fn copies_plainly(self) -> bool {
        &&& !self.noSource
        &&& !self.needs_pixmap()
        &&& self.destPPW == self.sourcePPW
        &&& !self.copies_leftwards()
    }

    /// The blit lies within a source form, and the form within a memory of this
    /// size.
    pub open spec fn source_form(self, size: nat) -> bool {
        &&& 0 <= self.sx && 0 <= self.sy
        &&& self.sx + self.bbW <= i32::MAX && self.sy + self.bbH <= i32::MAX
        &&& 4 <= self.sourcePitch && self.sourcePitch % 4 == 0
        &&& (self.sx + self.bbW) * self.destDepth <= 8 * self.sourcePitch
        &&& self.source_row(self.sy + self.bbH) <= size
    }

    /// The word, within its row, that the source starts in.
    pub open spec fn source_first(self) -> int {
        self.sx as int / self.destPPW as int
    }

    /// The word that it ends in.
    pub open spec fn source_last(self) -> int {
        (self.sx + self.bbW - 1) / self.destPPW as int
    }

    /// How far the source pixels have to move to the left within their words, in
    /// bits.
    pub open spec fn bit_skew(self) -> int {
        (self.sx as int % self.destPPW as int) * self.destDepth - (self.dx as int
            % self.destPPW as int) * self.destDepth
    }

    /// The source is as far from the destination as it is from its own start.
    proof fn lemma_bit_skew(self)
        requires
            self.whole_pixels(),
            0 <= self.dx,
            0 <= self.sx,
            1 <= self.bbW,
        ensures
            -32 < self.bit_skew() < 32,
            (self.sx - self.dx) * self.destDepth == 32 * (self.source_first()
                - self.first_word()) + self.bit_skew(),
    {
        self.lemma_pixel_place(self.sx as int);
        self.lemma_pixel_place(self.dx as int);
        let d = self.destDepth as int;
        assert((self.sx - self.dx) * d == self.sx * d - self.dx * d) by (nonlinear_arith);
    }

    /// The registers that a plain copy runs with.
    pub open spec fn copy_registers(self) -> BitBlt {
        self.with_dest_masks().with_direction().with_skew()
    }

    /// A word is read ahead exactly where the source pixels have to move left.
    proof fn lemma_preload(self)
        requires
            self.copies_plainly(),
            self.whole_pixels(),
            0 <= self.dx,
            0 <= self.sx,
            1 <= self.bbW,
        ensures
            self.copy_registers().preload == (self.bit_skew() > 0),
            self.copy_registers().skew == (if self.destMSB != 0 {
                self.bit_skew() - 32 * self.copy_registers().ahead()
            } else {
                32 * self.copy_registers().ahead() - self.bit_skew()
            }),
            self.copy_registers().hDir == 1,
            self.copy_registers().row_words() == self.with_dest_masks().row_words(),
            self.copy_registers().nWords == self.with_dest_masks().nWords,
            forall|k: int|
                #[trigger] self.copy_registers().word_mask(k) == self.with_dest_masks().word_mask(
                    k,
                ),
    {
        let msb = self.destMSB != 0;
        let set = self.with_dest_masks();
        let way = set.with_direction();
        let ppw = self.destPPW as int;
        let d = self.destDepth as int;
        self.lemma_row_words();
        self.lemma_pixel_place(self.sx as int);
        self.lemma_pixel_place(self.dx as int);
        self.lemma_pixel_place(self.dx + self.bbW - 1);
        let s_low = self.sx as int % ppw;
        let d_low = self.dx as int % ppw;
        assert(way.mask1 == set.mask1 && way.sx == self.sx && way.dx == self.dx && way.hDir == 1);
        let start = self.pixels_from(self.sx as int);
        assert(start * d == 32 - s_low * d) by (nonlinear_arith)
            requires
                start == ppw - s_low,
                ppw * d == 32,
        ;
        let from = self.pixels_from(self.dx as int);
        assert(from * d == 32 - d_low * d) by (nonlinear_arith)
            requires
                from == ppw - d_low,
                ppw * d == 32,
        ;
        let a = self.last_pixels_mask(start);
        let t = d_low * d;
        self.lemma_row_masks(0, t);
        self.lemma_mask_bits(start, t);
        lemma_stream_bits(msb, a, set.mask1, t);
        assert((self.dx + self.bbW) * d >= self.dx * d + d) by (nonlinear_arith)
            requires
                1 <= self.bbW,
                1 <= d,
        ;
        assert(set.word_mask(0) == set.mask1);
        assert(stream_bit(msb, set.mask1, t));
        if s_low * d > d_low * d {
            assert(!stream_bit(msb, a & set.mask1, t));
        } else {
            let single = self.bbW < from;
            let rest = if single {
                self.first_pixels_mask(self.pixels_to(self.dx + self.bbW - 1))
            } else {
                ALL_ONES
            };
            let m1 = self.last_pixels_mask(from);
            lemma_nested_masks((s_low * d) as u32, (d_low * d) as u32, rest);
            lemma_nested_masks((s_low * d) as u32, (d_low * d) as u32, ALL_ONES);
            assert(a & set.mask1 == set.mask1);
        }
        let apart_s = self.sx as sqInt & ((self.destPPW - 1) as sqInt);
        let apart_d = self.dx as sqInt & ((self.destPPW - 1) as sqInt);
        assert(d * (s_low - d_low) == s_low * d - d_low * d && d * (d_low - s_low) == d_low * d
            - s_low * d) by (nonlinear_arith);
    }

    /// The copy has to run from the bottom up.
    pub open spec fn copies_up(self) -> bool {
        self.copies_upwards()
    }

    /// Where the loop writes and reads.
    proof fn lemma_copy_addresses(self, size: nat, i: int, k: int)
        requires
            self.copies_plainly(),
            self.dest_form(size),
            self.source_form(size),
            1 <= self.bbH,
        ensures
            self.copy_registers().put_addr(i, k) == self.dest_grid(self.copies_up()).addr(i, k),
            self.copy_registers().fetch_addr(i, k) == self.read_addr(i, k),
            self.copy_registers().row_words() == self.dest_grid(self.copies_up()).words,
    {
        reveal(BitBlt::fetch_addr);
        reveal(BitBlt::put_addr);
        let set = self.with_dest_masks();
        let way = set.with_direction();
        let reg = self.copy_registers();
        let up = self.copies_up();
        self.lemma_row_words();
        self.lemma_words_in_row(size);
        self.lemma_pixel_place(self.dx as int);
        self.lemma_pixel_place(self.sx as int);
        self.lemma_preload();
        let dy = if up {
            self.dy + self.bbH - 1
        } else {
            self.dy as int
        };
        let sy = if up {
            self.sy + self.bbH - 1
        } else {
            self.sy as int
        };
        self.lemma_row_in_form(size, dy);
        self.lemma_source_row(size, sy);
        self.lemma_source_words(size);
        let n = reg.nWords as int;
        assert(self.dest_word_addr(self.dx as int, dy) == self.dest_row(dy) + 4
            * self.first_word());
        assert(way.destIndex == self.dest_row(dy) + 4 * self.first_word());
        assert(reg.destIndex == way.destIndex);
        let v: int = if up {
            -1
        } else {
            1
        };
        assert(self.destPitch * v == (if up {
            -self.destPitch
        } else {
            self.destPitch as int
        }) && self.sourcePitch * v == (if up {
            -self.sourcePitch
        } else {
            self.sourcePitch as int
        })) by (nonlinear_arith)
            requires
                v == (if up {
                    -1int
                } else {
                    1int
                }),
        ;
        assert(reg.destDelta == self.destPitch * v - 4 * n);
        assert(reg.vDir == v);
        assert(self.source_word_addr(self.sx as int, sy) == self.source_row(sy) + 4
            * self.source_first());
        assert(reg.sourceIndex == self.source_row(sy) + 4 * self.source_first());
        assert(reg.sourceDelta == self.sourcePitch * v - 4 * n - 4 * reg.ahead());
        let step = reg.word_step();
        assert(step * n == 4 * n && step * (n + reg.ahead()) == 4 * n + 4 * reg.ahead() && step * k
            == 4 * k) by (nonlinear_arith)
            requires
                step == 4,
        ;
        let p = self.sourcePitch as int;
        assert(self.source_row(sy) + i * (p * v) == self.source_row(sy + i * v)) by (nonlinear_arith)
            requires
                self.source_row(sy) == self.sourceBits + sy * p,
                self.source_row(sy + i * v) == self.sourceBits + (sy + i * v) * p,
        ;
        assert(i * v == (if up {
            -i
        } else {
            i
        })) by (nonlinear_arith)
            requires
                v == (if up {
                    -1int
                } else {
                    1int
                }),
        ;
    }

    /// Which row of the source row `i` of the loop is.
    pub open spec fn read_row(self, i: int) -> int {
        if self.copies_up() {
            self.sy + self.bbH - 1 - i
        } else {
            self.sy + i
        }
    }

    /// The address of source word `f` of row `i` of the loop.
    pub open spec fn read_addr(self, i: int, f: int) -> int {
        self.source_row(self.read_row(i)) + 4 * (self.source_first() + f)
    }

    /// The rows of the blit lie within the source form.
    pub(crate) proof fn lemma_source_row(self, size: nat, y: int)
        requires
            self.source_form(size),
            self.sy <= y < self.sy + self.bbH,
        ensures
            0 <= self.source_row(y),
            self.source_row(self.sy as int) <= self.source_row(y),
            self.source_row(y) + self.sourcePitch <= self.source_row(self.sy + self.bbH) <= size,
    {
        let p = self.sourcePitch as int;
        assert(self.sy * p <= y * p && 0 <= self.sy * p && y * p + p <= (self.sy + self.bbH) * p)
            by (nonlinear_arith)
            requires
                0 <= self.sy <= y,
                y + 1 <= self.sy + self.bbH,
                0 <= p,
        ;
    }

    /// The words that hold the source lie within their rows.
    pub(crate) proof fn lemma_source_words(self, size: nat)
        requires
            self.whole_pixels(),
            self.source_form(size),
            1 <= self.bbW,
        ensures
            0 <= self.source_first() <= self.source_last(),
            4 * self.source_last() + 4 <= self.sourcePitch,
            32 * self.source_first() <= self.sx * self.destDepth,
            (self.sx + self.bbW) * self.destDepth <= 32 * self.source_last() + 32,
    {
        let last = self.sx + self.bbW - 1;
        self.lemma_pixel_place(self.sx as int);
        self.lemma_pixel_place(last);
        let ppw = self.destPPW as int;
        let d = self.destDepth as int;
        assert((last + 1) * d == last * d + d) by (nonlinear_arith);
        vstd::arithmetic::div_mod::lemma_div_is_ordered(self.sx as int, last, ppw);
        assert(0 <= self.sx as int / ppw) by (nonlinear_arith)
            requires
                0 <= self.sx,
                0 < ppw,
        ;
    }

    /// Every source word that counts is read before the loop writes to it.
    pub open spec fn reads_first(self) -> bool {
        forall|i: int, f: int|
            0 <= i < self.bbH && 0 <= f <= self.source_last() - self.source_first()
                ==> self.dest_grid(self.copies_up()).clear_of(
                i,
                f - self.copy_registers().ahead(),
                #[trigger] self.read_addr(i, f),
            )
    }

    /// The halftone word of a row of the destination.
    pub open spec fn halftone_row(self, m: Seq<u8>, y: int) -> u32 {
        if self.noHalftone {
            ALL_ONES
        } else {
            word_at(m, self.halftoneBase + (y % self.halftoneHeight as int) * 4)
        }
    }

    /// The source word that was read last before word `k` of row `i`.
    pub open spec fn last_read(self, m: Seq<u8>, i: int, k: int) -> u32 {
        let f = k - 1 + self.copy_registers().ahead();
        if f < 0 {
            0
        } else {
            word_at(m, self.read_addr(i, f))
        }
    }

    /// The source word that is read for word `k` of row `i`, if it counts.
    pub open spec fn next_read(self, m: Seq<u8>, i: int, k: int) -> u32 {
        let f = k + self.copy_registers().ahead();
        if f <= self.source_last() - self.source_first() {
            word_at(m, self.read_addr(i, f))
        } else {
            0
        }
    }

    /// The source words of a plain copy.
    pub open spec fn copy_source(self, m: Seq<u8>) -> spec_fn(int, int) -> u32 {
        |i: int, k: int|
            self.copy_registers().funnel(self.last_read(m, i, k), self.next_read(m, i, k))
                & self.halftone_row(
                m,
                if self.copies_up() {
                    self.dy + self.bbH - 1 - i
                } else {
                    self.dy + i
                },
            )
    }

    /// The funnel takes the bits from where the skew says.
    proof fn lemma_funnel_bits(self, prev: u32, this: u32, n: int, t: int)
        requires
            -32 < n <= 0,
            0 <= t < 32,
            self.skew == (if self.destMSB != 0 {
                n
            } else {
                -n
            }),
        ensures
            stream_bit(self.destMSB != 0, self.funnel(prev, this), t) == (if t + n >= 0 {
                stream_bit(self.destMSB != 0, this, t + n)
            } else {
                stream_bit(self.destMSB != 0, prev, t + n + 32)
            }),
    {
        let msb = self.destMSB != 0;
        let mask = self.skew_mask();
        let a = prev & !mask;
        let b = this & mask;
        lemma_stream_bits(
            msb,
            shift_word(a, self.unskew()),
            shift_word(b, self.skew as int),
            t,
        );
        if n == 0 {
            lemma_stream_shift(msb, b, 0, t);
            lemma_stream_shift(msb, a, 0, t);
            lemma_stream_bits(msb, this, mask, t);
            lemma_stream_bits(msb, prev, !mask, t);
            lemma_stream_bits(msb, mask, mask, t);
        } else {
            lemma_stream_shift(msb, b, n, t);
            lemma_stream_shift(msb, a, n + 32, t);
            if t + n >= 0 {
                lemma_stream_bits(msb, this, mask, t + n);
                lemma_stream_shift(msb, ALL_ONES, -n, t + n);
                lemma_stream_bits(msb, 0, 0, t + n - n);
            }
            if t + n + 32 < 32 {
                lemma_stream_bits(msb, prev, !mask, t + n + 32);
                lemma_stream_bits(msb, mask, mask, t + n + 32);
                lemma_stream_shift(msb, ALL_ONES, -n, t + n + 32);
            }
        }
    }

    /// A source bit that belongs into the blit comes from the words that count.
    proof fn lemma_counts(self, size: nat, k: int, t: int)
        requires
            self.copies_plainly(),
            self.dest_form(size),
            self.source_form(size),
            0 <= k < self.dest_grid(self.copies_up()).words,
            0 <= t < 32,
        ensures
            self.in_columns(32 * (self.first_word() + k) + t) ==> {
                let ahead = self.copy_registers().ahead();
                let n = self.bit_skew() - 32 * ahead;
                let f = k + ahead;
                &&& t + n >= 0 ==> f <= self.source_last() - self.source_first()
                &&& t + n < 0 ==> f >= 1
            },
            k + self.copy_registers().ahead() >= 1 ==> k - 1 + self.copy_registers().ahead()
                <= self.source_last() - self.source_first(),
            -32 < self.bit_skew() - 32 * self.copy_registers().ahead() <= 0,
    {
        self.lemma_preload();
        self.lemma_bit_skew();
        self.lemma_source_words(size);
        self.lemma_words_in_row(size);
        self.lemma_pixel_place(self.dx as int);
        self.lemma_pixel_place(self.sx as int);
        self.lemma_pixel_place(self.dx + self.bbW - 1);
        self.lemma_pixel_place(self.sx + self.bbW - 1);
        let d = self.destDepth as int;
        let ahead = self.copy_registers().ahead();
        let last_d = self.dx + self.bbW - 1;
        let last_s = self.sx + self.bbW - 1;
        assert(last_s * d - last_d * d == (self.sx - self.dx) * d) by (nonlinear_arith)
            requires
                last_s - last_d == self.sx - self.dx,
        ;
        assert((self.dx + self.bbW) * d == last_d * d + d) by (nonlinear_arith)
            requires
                last_d == self.dx + self.bbW - 1,
        ;
        assert((self.sx + self.bbW) * d == last_s * d + d) by (nonlinear_arith)
            requires
                last_s == self.sx + self.bbW - 1,
        ;
    }

    proof fn lemma_copy_words_done(self, m: Seq<u8>, p: Picture, h: u32, i: int, k: int)
        requires
            self.copies_plainly(),
            self.dest_form(m.len()),
            self.source_form(m.len()),
            self.reads_first(),
            self.word_by_word(),
            0 <= i < self.bbH,
            0 <= k <= self.dest_grid(self.copies_up()).words,
            h == self.halftone_row(
                m,
                if self.copies_up() {
                    self.dy + self.bbH - 1 - i
                } else {
                    self.dy + i
                },
            ),
            self.dest_grid(self.copies_up()).done(
                m,
                p.mem,
                i,
                0,
                self.ruled_words(m, self.dest_grid(self.copies_up()), self.copy_source(m)),
            ),
        ensures
            self.dest_grid(self.copies_up()).done(
                m,
                self.copy_registers().copy_words(h, p, i, k).mem,
                i,
                k,
                self.ruled_words(m, self.dest_grid(self.copies_up()), self.copy_source(m)),
            ),
            k < self.dest_grid(self.copies_up()).words
                ==> self.copy_registers().copy_words(h, p, i, k).prev == self.last_read(m, i, k),
        decreases k,
    {
        let g = self.dest_grid(self.copies_up());
        let w = self.ruled_words(m, g, self.copy_source(m));
        let reg = self.copy_registers();
        self.lemma_preload();
        self.lemma_source_words(m.len());
        if k == 0 {
            if reg.preload {
                self.lemma_copy_addresses(m.len(), i, 0);
                self.lemma_read_valid(m.len(), i, 0);
                assert(g.clear_of(i, 0 - reg.ahead(), self.read_addr(i, 0)));
                assert forall|j: int, l: int| g.before(j, l, i, 0) implies (#[trigger] g.addr(j, l))
                    + 4 <= self.read_addr(i, 0) || self.read_addr(i, 0) + 4 <= g.addr(j, l) by {
                    assert(g.before(j, l, i, -1));
                }
                g.lemma_clear_word(m, p.mem, i, 0, w, self.read_addr(i, 0));
            }
        } else {
            self.lemma_copy_words_done(m, p, h, i, k - 1);
            self.lemma_dest_grid(m.len(), self.copies_up());
            self.lemma_copy_addresses(m.len(), i, k - 1);
            self.lemma_copy_addresses(m.len(), i, k - 1 + reg.ahead());
            self.lemma_counts(m.len(), k - 1, 0);
            let q = reg.copy_words(h, p, i, k - 1);
            let f = k - 1 + reg.ahead();
            let s = self.read_addr(i, f);
            let this = word_at(q.mem, s);
            let old = word_at(m, g.addr(i, k - 1));
            assert(!reg.runs_behind(h)) by {
                self.lemma_bit_skew();
            }
            if f <= self.source_last() - self.source_first() {
                self.lemma_read_valid(m.len(), i, f);
                assert(g.clear_of(i, f - reg.ahead(), self.read_addr(i, f)));
                g.lemma_clear_word(m, q.mem, i, k - 1, w, s);
            }
            g.lemma_own_word(m, q.mem, i, k - 1, w);
            self.lemma_whole_masks(k - 1);
            reg.lemma_stores_ruled(
                reg.word_mask(k - 1),
                Picture { mem: q.mem, count: q.count },
                g.addr(i, k - 1),
                reg.funnel(q.prev, this) & h,
            );
            self.lemma_ruled_same(
                reg,
                reg.word_mask(k - 1),
                reg.funnel(q.prev, this) & h,
                old,
            );
            self.lemma_masked_read(m, h, i, k - 1, this, old);
            g.lemma_step(m, q.mem, i, k - 1, w);
            if k < g.words {
                self.lemma_counts(m.len(), k, 0);
            }
        }
    }

    /// The words that count exist.
    proof fn lemma_read_valid(self, size: nat, i: int, f: int)
        requires
            self.whole_pixels(),
            1 <= self.bbW,
            self.source_form(size),
            0 <= i < self.bbH,
            0 <= f <= self.source_last() - self.source_first(),
        ensures
            0 <= self.read_addr(i, f),
            self.read_addr(i, f) + 4 <= size,
    {
        self.lemma_source_words(size);
        self.lemma_source_row(size, self.read_row(i));
    }

    /// A word that does not count leaves no trace.
    proof fn lemma_masked_read(self, m: Seq<u8>, h: u32, i: int, k: int, this: u32, old: u32)
        requires
            self.copies_plainly(),
            self.dest_form(m.len()),
            self.source_form(m.len()),
            self.word_by_word(),
            0 <= i < self.bbH,
            0 <= k < self.dest_grid(self.copies_up()).words,
            k + self.copy_registers().ahead() <= self.source_last() - self.source_first() ==> this
                == self.next_read(m, i, k),
        ensures
            self.ruled(
                self.with_dest_masks().word_mask(k),
                self.copy_registers().funnel(self.last_read(m, i, k), this) & h,
                old,
            ) == self.ruled(
                self.with_dest_masks().word_mask(k),
                self.copy_registers().funnel(
                    self.last_read(m, i, k),
                    self.next_read(m, i, k),
                ) & h,
                old,
            ),
    {
        let reg = self.copy_registers();
        let msb = self.destMSB != 0;
        let mask = self.with_dest_masks().word_mask(k);
        let prev = self.last_read(m, i, k);
        let next = self.next_read(m, i, k);
        let x = reg.funnel(prev, this) & h;
        let z = reg.funnel(prev, next) & h;
        let a = self.ruled(mask, x, old);
        let b = self.ruled(mask, z, old);
        let n = self.bit_skew() - 32 * reg.ahead();
        self.lemma_preload();
        self.lemma_row_words();
        if self.destDepth == 32 {
            crate::bitblt::merge::lemma_ppw_bound(self);
            assert(self.sx as int / 1 == self.sx && self.sx as int % 1 == 0);
            assert(self.dx as int / 1 == self.dx && self.dx as int % 1 == 0);
            assert((self.sx + self.bbW - 1) / 1 == self.sx + self.bbW - 1);
            assert((self.dx + self.bbW - 1) / 1 == self.dx + self.bbW - 1);
        } else {
            assert forall|t: int| 0 <= t < 32 implies #[trigger] stream_bit(msb, a, t) == stream_bit(
                msb,
                b,
                t,
            ) by {
                self.lemma_counts(m.len(), k, t);
                self.lemma_row_masks(k, t);
                self.lemma_ruled_bits(mask, x, old, t);
                self.lemma_ruled_bits(mask, z, old, t);
                reg.lemma_funnel_bits(prev, this, n, t);
                reg.lemma_funnel_bits(prev, next, n, t);
                lemma_stream_bits(msb, reg.funnel(prev, this), h, t);
                lemma_stream_bits(msb, reg.funnel(prev, next), h, t);
            }
            lemma_same_bits(msb, a, b);
        }
    }

    pub(crate) proof fn lemma_copy_rows_done(self, m: Seq<u8>, p: Picture, i: int)
        requires
            self.copies_plainly(),
            self.dest_form(m.len()),
            self.source_form(m.len()),
            self.reads_first(),
            self.halftone_apart(m.len()),
            self.word_by_word(),
            p.mem == m,
            0 <= i <= self.bbH,
        ensures
            self.dest_grid(self.copies_up()).done(
                m,
                self.copy_registers().copy_rows(p, i).mem,
                i,
                0,
                self.ruled_words(m, self.dest_grid(self.copies_up()), self.copy_source(m)),
            ),
        decreases i,
    {
        let up = self.copies_up();
        let g = self.dest_grid(up);
        let w = self.ruled_words(m, g, self.copy_source(m));
        let reg = self.copy_registers();
        if i == 0 {
            g.lemma_begin(m, w);
        } else {
            self.lemma_copy_rows_done(m, p, i - 1);
            let q = reg.copy_rows(p, i - 1);
            let h = reg.copy_halftone(p.mem, q.mem, i - 1);
            let y = if up {
                self.dy + self.bbH - 1 - (i - 1)
            } else {
                self.dy + (i - 1)
            };
            assert(h == self.halftone_row(m, y)) by {
                if !self.noHalftone {
                    let n = y % self.halftoneHeight as int;
                    crate::bitblt::engine::lemma_remainder(y, self.halftoneHeight as int);
                    self.lemma_halftone_stays(m, q.mem, up, i - 1, w, n);
                    assert(reg.dy + (i - 1) * reg.vDir == y) by {
                        assert((i - 1) * -1int == -(i - 1) && (i - 1) * 1int == i - 1);
                    }
                    if self.halftoneHeight == 1 {
                        assert(n == 0);
                    }
                }
            }
            self.lemma_copy_addresses(m.len(), i - 1, 0);
            self.lemma_copy_words_done(m, q, h, i - 1, g.words);
            let row = reg.copy_words(h, q, i - 1, g.words);
            g.lemma_turn(m, row.mem, i - 1, w);
        }
    }

    /// The source bit that belongs to bit `b` of row `y` of the destination.
    pub open spec fn source_bit_for(self, m: Seq<u8>, y: int, b: int) -> bool {
        row_bit(
            m,
            self.destMSB != 0,
            self.source_row(y - self.dy + self.sy),
            b + (self.sx - self.dx) * self.destDepth,
        )
    }

    /// The bits of the words that a copy merges are those of the source.
    pub(crate) proof fn lemma_copy_source_bits(self, m: Seq<u8>, y: int, b: int)
        requires
            self.copies_plainly(),
            self.dest_form(m.len()),
            self.source_form(m.len()),
            self.covers(y, b),
        ensures
            stream_bit(
                self.destMSB != 0,
                (self.copy_source(m))(
                    self.grid_row(self.copies_up(), y),
                    b / 32 - self.first_word(),
                ),
                b % 32,
            ) == (self.source_bit_for(m, y, b) && stream_bit(
                self.destMSB != 0,
                self.halftone_row(m, y),
                b % 32,
            )),
    {
        let up = self.copies_up();
        let msb = self.destMSB != 0;
        let reg = self.copy_registers();
        let i = self.grid_row(up, y);
        let k = b / 32 - self.first_word();
        let t = b % 32;
        self.lemma_words_in_row(m.len());
        self.lemma_row_words();
        assert(0 <= k < self.dest_grid(up).words) by {
            assert(b == 32 * (b / 32) + t);
        }
        self.lemma_counts(m.len(), k, t);
        self.lemma_preload();
        self.lemma_bit_skew();
        let n = self.bit_skew() - 32 * reg.ahead();
        let prev = self.last_read(m, i, k);
        let next = self.next_read(m, i, k);
        let f = k + reg.ahead();
        reg.lemma_funnel_bits(prev, next, n, t);
        lemma_stream_bits(msb, reg.funnel(prev, next), self.halftone_row(m, y), t);
        let c = b + (self.sx - self.dx) * self.destDepth;
        assert(self.read_row(i) == y - self.dy + self.sy);
        assert(c == 32 * (self.source_first() + f) + t + n);
        if t + n >= 0 {
            assert(c / 32 == self.source_first() + f && c % 32 == t + n);
        } else {
            assert(c / 32 == self.source_first() + f - 1 && c % 32 == t + n + 32);
        }
    }

    /// Within its forms, a copy between forms of one depth can be carried out. It
    /// may read one word more than the source has, so that much must follow it.
    pub proof fn lemma_copy_runs(self, size: nat)
        requires
            self.copies_plainly(),
            1 <= self.bbH,
            self.dest_form(size),
            self.source_form(size),
            self.source_row(self.sy + self.bbH) + 4 <= size,
            self.merge_ok(size),
            self.halftone_ok(size),
            self.counts_fit(),
        ensures
            self.loop_ok(size),
    {
        reveal(BitBlt::loop_ok);
        let reg = self.copy_registers();
        let up = self.copies_up();
        let g = self.dest_grid(up);
        self.lemma_row_words();
        self.lemma_preload();
        self.lemma_bit_skew();
        self.lemma_steps_fit();
        self.with_dest_masks().lemma_steps_fit();
        self.lemma_source_words(size);
        self.lemma_dest_grid(size, up);
        assert forall|i: int, k: int|
            0 <= i < reg.bbH && 0 <= k < reg.row_words() implies 0 <= #[trigger] reg.put_addr(
            i,
            k,
        ) && reg.put_addr(i, k) + 4 <= size by {
            self.lemma_copy_addresses(size, i, k);
            assert(g.has(i, k));
        }
        assert forall|i: int, k: int|
            0 <= i < reg.bbH && 0 <= k < reg.row_words() + reg.ahead() implies 0
            <= #[trigger] reg.fetch_addr(i, k) && reg.fetch_addr(i, k) + 4 <= size by {
            self.lemma_copy_addresses(size, i, k);
            self.lemma_source_row(size, self.read_row(i));
            self.lemma_words_read();
        }
        assert(reg.fetches_ok(size));
        assert(reg.puts_ok(size));
        assert((reg.bbH - 1) * reg.vDir == if up {
            1 - self.bbH
        } else {
            self.bbH - 1
        }) by (nonlinear_arith)
            requires
                reg.bbH == self.bbH,
                reg.vDir == if up {
                    -1int
                } else {
                    1
                },
        ;
        assert(reg.dy == if up {
            self.dy + self.bbH - 1
        } else {
            self.dy as int
        });
        assert(reg.copy_halftone_ok(size));
        assert(reg.row_words() == g.words);
    }

    /// At most one word after the source is read.
    proof fn lemma_words_read(self)
        requires
            self.copies_plainly(),
            self.whole_pixels(),
            0 <= self.dx,
            0 <= self.sx,
            1 <= self.bbW,
        ensures
            self.source_first() + (self.last_word() - self.first_word())
                + self.copy_registers().ahead() <= self.source_last() + 1,
    {
        let d = self.destDepth as int;
        let last_s = self.sx + self.bbW - 1;
        let last_d = self.dx + self.bbW - 1;
        self.lemma_preload();
        self.lemma_bit_skew();
        self.lemma_pixel_place(self.sx as int);
        self.lemma_pixel_place(self.dx as int);
        self.lemma_pixel_place(last_s);
        self.lemma_pixel_place(last_d);
        assert(last_s * d - last_d * d == (self.sx - self.dx) * d) by (nonlinear_arith)
            requires
                last_s - last_d == self.sx - self.dx,
        ;
    }

    /// A copy between forms of one depth makes of every bit of its rectangle what
    /// the rule makes of it and of the source bit that belongs there, as the
    /// source was before the copy. Every other bit of the form stays, and so does
    /// the memory outside the rows of the blit.
    pub proof fn lemma_copy(self, m: Seq<u8>, y: int, b: int, a: int)
        requires
            self.copies_plainly(),
            0 <= self.combinationRule <= 15,
            self.dest_form(m.len()),
            self.source_form(m.len()),
            self.reads_first(),
            self.halftone_apart(m.len()),
            0 <= b < 8 * self.destPitch,
            0 <= self.dest_row(y),
            self.dest_row(y) + self.destPitch <= m.len(),
            0 <= a < m.len(),
        ensures
            row_bit(self.looped(m).mem, self.destMSB != 0, self.dest_row(y), b) == (
            if self.covers(y, b) {
                rule_bit(
                    self.combinationRule as int,
                    self.source_bit_for(m, y, b) && stream_bit(
                        self.destMSB != 0,
                        self.halftone_row(m, y),
                        b % 32,
                    ),
                    row_bit(m, self.destMSB != 0, self.dest_row(y), b),
                )
            } else {
                row_bit(m, self.destMSB != 0, self.dest_row(y), b)
            }),
            !(self.dest_row(self.dy as int) <= a < self.dest_row(self.dy + self.bbH))
                ==> self.looped(m).mem[a] == m[a],
    {
        reveal(BitBlt::looped);
        let up = self.copies_up();
        let reg = self.copy_registers();
        let p = Picture { mem: m, count: reg.bitCount as int };
        self.lemma_copy_rows_done(m, p, self.bbH as int);
        let after = reg.copy_rows(p, self.bbH as int).mem;
        assert(self.looped(m).mem == after);
        self.lemma_by_bits(m, after, up, self.copy_source(m), y, b);
        if self.covers(y, b) {
            self.lemma_copy_source_bits(m, y, b);
        }
        if !(self.dest_row(self.dy as int) <= a < self.dest_row(self.dy + self.bbH)) {
            self.lemma_rows_only(
                m,
                after,
                up,
                self.bbH as int,
                0,
                self.ruled_words(m, self.dest_grid(up), self.copy_source(m)),
                a,
            );
        }
    }

    /// Forms that share no memory can be copied between.
    pub proof fn lemma_apart_forms_read_first(self, size: nat)
        requires
            self.copies_plainly(),
            self.dest_form(size),
            self.source_form(size),
            self.source_row(self.sy + self.bbH) <= self.dest_row(self.dy as int) || self.dest_row(
                self.dy + self.bbH,
            ) <= self.source_row(self.sy as int),
        ensures
            self.reads_first(),
    {
        let g = self.dest_grid(self.copies_up());
        self.lemma_words_in_row(size);
        self.lemma_source_words(size);
        assert forall|i: int, f: int|
            0 <= i < self.bbH && 0 <= f <= self.source_last()
                - self.source_first() implies g.clear_of(
            i,
            f - self.copy_registers().ahead(),
            #[trigger] self.read_addr(i, f),
        ) by {
            let s = self.read_addr(i, f);
            self.lemma_source_row(size, self.read_row(i));
            assert forall|j: int, l: int|
                g.before(j, l, i, f - self.copy_registers().ahead()) implies (#[trigger] g.addr(
                j,
                l,
            )) + 4 <= s || s + 4 <= g.addr(j, l) by {
                let z = if self.copies_up() {
                    self.dy + self.bbH - 1 - j
                } else {
                    self.dy + j
                };
                self.lemma_grid_addr(self.copies_up(), z, l);
                self.lemma_row_in_form(size, z);
            }
        }
    }

    /// Within one form a copy can go up, down, and to the left along its rows.
    pub proof fn lemma_one_form_reads_first(self, size: nat)
        requires
            self.copies_plainly(),
            self.dest_form(size),
            self.source_form(size),
            self.sourceForm == self.destForm,
            self.sourceBits == self.destBits,
            self.sourcePitch == self.destPitch,
        ensures
            self.reads_first(),
    {
        let g = self.dest_grid(self.copies_up());
        let up = self.copies_up();
        self.lemma_words_in_row(size);
        self.lemma_source_words(size);
        assert(self.dx <= self.sx && self.dy == self.sy ==> self.first_word()
            <= self.source_first()) by {
            if self.dx <= self.sx {
                self.lemma_pixel_place(self.dx as int);
                vstd::arithmetic::div_mod::lemma_div_is_ordered(
                    self.dx as int,
                    self.sx as int,
                    self.destPPW as int,
                );
            }
        }
        assert forall|i: int, f: int|
            0 <= i < self.bbH && 0 <= f <= self.source_last()
                - self.source_first() implies g.clear_of(
            i,
            f - self.copy_registers().ahead(),
            #[trigger] self.read_addr(i, f),
        ) by {
            let s = self.read_addr(i, f);
            let k = f - self.copy_registers().ahead();
            assert forall|j: int, l: int| g.before(j, l, i, k) implies (#[trigger] g.addr(j, l)) + 4
                <= s || s + 4 <= g.addr(j, l) by {
                let z = if up {
                    self.dy + self.bbH - 1 - j
                } else {
                    self.dy + j
                };
                self.lemma_grid_addr(up, z, l);
                self.lemma_rows_apart(
                    z,
                    self.first_word() + l,
                    self.read_row(i),
                    self.source_first() + f,
                );
            }
        }
    }
}

impl BitBlt {
    // ---- To the right along the rows --------------------------------------

    /// How far the source pixels have to move to the left within their words, in
    /// bits, seen from the last pixel.
    pub open spec fn right_skew(self) -> int {
        ((self.sx + self.bbW - 1) % (self.destPPW as int)) * self.destDepth - ((self.dx + self.bbW
            - 1) % (self.destPPW as int)) * self.destDepth
    }

    /// A copy to the right within the rows of one form, for which the loop reads
    /// ahead where a destination word takes bits of two source words, and only
    /// there. Whole words, and a single word, come out right in any case in which
    /// nothing is missing.
    pub open spec fn copies_right(self) -> bool {
        &&& !self.noSource
        &&& !self.needs_pixmap()
        &&& self.destPPW == self.sourcePPW
        &&& self.copies_leftwards()
        &&& self.sourceBits == self.destBits
        &&& self.sourcePitch == self.destPitch
        &&& {
            ||| self.right_skew() == 0
            ||| self.copy_registers().preload == (self.right_skew() < 0)
            ||| self.first_word() == self.last_word() && (self.right_skew() > 0
                || self.source_first() == self.source_last())
        }
    }

    /// How far the loop moves the bits to the left.
    pub open spec fn right_shift(self) -> int {
        let n = self.right_skew();
        if !self.copy_registers().preload {
            n
        } else if n < 0 {
            n + 32
        } else if n > 0 || self.destMSB != 0 {
            n - 32
        } else {
            32
        }
    }

    /// The source seen from its first and from its last pixel.
    proof fn lemma_words_right(self, size: nat)
        requires
            self.copies_right(),
            self.dest_form(size),
            self.source_form(size),
        ensures
            -32 < self.right_skew() < 32,
            self.source_last() <= self.last_word(),
            (self.sx - self.dx) * self.destDepth == 32 * (self.source_last() - self.last_word())
                + self.right_skew(),
            self.last_word() - self.first_word() - 1 <= self.source_last() - self.source_first(),
            self.right_skew() <= 0 ==> self.last_word() - self.first_word() <= self.source_last()
                - self.source_first(),
    {
        let d = self.destDepth as int;
        let ppw = self.destPPW as int;
        let last_d = self.dx + self.bbW - 1;
        let last_s = self.sx + self.bbW - 1;
        self.lemma_bit_skew();
        self.lemma_pixel_place(self.dx as int);
        self.lemma_pixel_place(self.sx as int);
        self.lemma_pixel_place(last_d);
        self.lemma_pixel_place(last_s);
        assert(last_s * d - last_d * d == (self.sx - self.dx) * d) by (nonlinear_arith)
            requires
                last_s - last_d == self.sx - self.dx,
        ;
        vstd::arithmetic::div_mod::lemma_div_is_ordered(last_s, last_d, ppw);
    }

    /// The registers that such a copy runs with.
    proof fn lemma_right_registers(self, size: nat, i: int, k: int)
        requires
            self.copies_right(),
            self.dest_form(size),
            self.source_form(size),
            1 <= self.bbH,
        ensures
            ({
                let reg = self.copy_registers();
                let g = self.dest_grid(false);
                &&& reg.hDir == -1
                &&& reg.vDir == 1
                &&& reg.dy == self.dy
                &&& reg.skew == (if self.destMSB != 0 {
                    self.right_shift()
                } else {
                    -self.right_shift()
                })
                &&& reg.row_words() == g.words
                &&& reg.put_addr(i, k) == g.reversed().addr(i, k)
                &&& reg.fetch_addr(i, k) == self.right_addr(i, k)
                &&& 0 <= k < g.words ==> reg.word_mask(k) == self.with_dest_masks().word_mask(
                    g.words - 1 - k,
                )
            }),
    {
        reveal(BitBlt::fetch_addr);
        reveal(BitBlt::put_addr);
        let set = self.with_dest_masks();
        let way = set.with_direction();
        let reg = self.copy_registers();
        let g = self.dest_grid(false);
        let last_d = self.dx + self.bbW - 1;
        let last_s = self.sx + self.bbW - 1;
        self.lemma_row_words();
        self.lemma_words_in_row(size);
        self.lemma_words_right(size);
        self.lemma_source_words(size);
        self.lemma_pixel_place(self.dx as int);
        self.lemma_pixel_place(last_d);
        self.lemma_pixel_place(last_s);
        self.lemma_row_in_form(size, self.dy as int);
        self.lemma_source_row(size, self.sy as int);
        let n = reg.nWords as int;
        assert(way.dx == last_d && way.sx == last_s && way.hDir == -1 && way.nWords == n);
        let low_s = last_s % (self.destPPW as int);
        let low_d = last_d % (self.destPPW as int);
        assert(self.destDepth * (low_s - low_d) == self.right_skew() && self.destDepth * (low_d
            - low_s) == -self.right_skew()) by (nonlinear_arith)
            requires
                self.right_skew() == low_s * self.destDepth - low_d * self.destDepth,
        ;
        assert(way.raw_skew() == (if self.destMSB != 0 {
            self.right_skew()
        } else {
            -self.right_skew()
        }));
        assert(self.dest_word_addr(last_d, self.dy as int) == self.dest_row(self.dy as int) + 4
            * self.last_word());
        assert(reg.destIndex == self.dest_row(self.dy as int) + 4 * self.last_word());
        assert(n * -1int == -n) by (nonlinear_arith);
        assert(reg.destDelta == self.destPitch + 4 * n) by {
            assert(self.destPitch * 1int == self.destPitch);
        }
        assert(self.source_word_addr(last_s, self.sy as int) == self.source_row(self.sy as int) + 4
            * self.source_last());
        assert(reg.sourceIndex == self.source_row(self.sy as int) + 4 * self.source_last());
        assert(reg.sourceDelta == self.sourcePitch + 4 * n + 4 * reg.ahead()) by {
            assert(self.sourcePitch * 1int == self.sourcePitch);
        }
        let p = self.sourcePitch as int;
        assert(self.source_row(self.sy as int) + i * p == self.source_row(self.sy + i))
            by (nonlinear_arith)
            requires
                self.source_row(self.sy as int) == self.sourceBits + self.sy * p,
                self.source_row(self.sy + i) == self.sourceBits + (self.sy + i) * p,
        ;
        let step = reg.word_step();
        assert(step * n == -4 * n && step * k == -4 * k && step * (n + reg.ahead()) == -4 * (n
            + reg.ahead())) by (nonlinear_arith)
            requires
                step == -4,
        ;
        let d = g.reversed().stride;
        assert(d * k == -4 * k && g.stride * (g.words - 1) == 4 * (g.words - 1)) by (nonlinear_arith)
            requires
                d == -4,
                g.stride == 4,
        ;
    }

    /// The address of source word `f` of row `i`, from the right.
    pub open spec fn right_addr(self, i: int, f: int) -> int {
        self.source_row(self.sy + i) + 4 * (self.source_last() - f)
    }

    /// The source word that was read last before word `k` of row `i`, from the
    /// right.
    pub open spec fn last_right(self, m: Seq<u8>, i: int, k: int) -> u32 {
        let f = k - 1 + self.copy_registers().ahead();
        if f < 0 {
            0
        } else {
            word_at(m, self.right_addr(i, f))
        }
    }

    /// The source word that is read for word `k` of row `i`, from the right, if
    /// it counts.
    pub open spec fn next_right(self, m: Seq<u8>, i: int, k: int) -> u32 {
        let f = k + self.copy_registers().ahead();
        if f <= self.source_last() - self.source_first() {
            word_at(m, self.right_addr(i, f))
        } else {
            0
        }
    }

    /// The source words of such a copy, from the right.
    pub open spec fn right_source(self, m: Seq<u8>) -> spec_fn(int, int) -> u32 {
        |i: int, k: int|
            self.copy_registers().funnel(self.last_right(m, i, k), self.next_right(m, i, k))
                & self.halftone_row(m, self.dy + i)
    }

    /// The words that it leaves, from the right.
    pub open spec fn right_words(self, m: Seq<u8>) -> spec_fn(int, int) -> u32 {
        let g = self.dest_grid(false);
        |i: int, k: int|
            self.ruled(
                self.with_dest_masks().word_mask(g.words - 1 - k),
                (self.right_source(m))(i, k),
                word_at(m, g.reversed().addr(i, k)),
            )
    }

    /// Every word that counts is read before it is written.
    proof fn lemma_right_reads_first(self, size: nat, i: int, k: int, f: int)
        requires
            self.copies_right(),
            self.dest_form(size),
            self.source_form(size),
            0 <= i < self.bbH,
            0 <= f <= self.source_last() - self.source_first(),
            k <= f,
        ensures
            self.dest_grid(false).reversed().clear_of(i, k, self.right_addr(i, f)),
            0 <= self.right_addr(i, f),
            self.right_addr(i, f) + 4 <= size,
    {
        let g = self.dest_grid(false);
        let r = g.reversed();
        let s = self.right_addr(i, f);
        self.lemma_words_in_row(size);
        self.lemma_source_words(size);
        self.lemma_words_right(size);
        self.lemma_source_row(size, self.sy + i);
        assert forall|j: int, l: int| r.before(j, l, i, k) implies (#[trigger] r.addr(j, l)) + 4
            <= s || s + 4 <= r.addr(j, l) by {
            g.lemma_reversed_addr(j, l);
            self.lemma_grid_addr(false, self.dy + j, g.words - 1 - l);
            self.lemma_rows_apart(
                self.dy + j,
                self.first_word() + g.words - 1 - l,
                self.sy + i,
                self.source_last() - f,
            );
        }
    }

    /// The funnel takes the bits from where the skew says, whichever way the
    /// loop runs.
    proof fn lemma_right_funnel(self, prev: u32, this: u32, n: int, t: int)
        requires
            -32 <= n <= 32,
            0 <= t < 32,
            self.skew == (if self.destMSB != 0 {
                n
            } else {
                -n
            }),
            n == 32 ==> self.destMSB == 0,
            n == -32 ==> self.destMSB != 0,
        ensures
            stream_bit(self.destMSB != 0, self.funnel(prev, this), t) == (if 0 <= t + n < 32 {
                stream_bit(self.destMSB != 0, this, t + n)
            } else if n > 0 {
                stream_bit(self.destMSB != 0, prev, t + n - 32)
            } else {
                stream_bit(self.destMSB != 0, prev, t + n + 32)
            }),
    {
        let msb = self.destMSB != 0;
        let mask = self.skew_mask();
        let a = prev & !mask;
        let b = this & mask;
        if -32 < n <= 0 {
            self.lemma_funnel_bits(prev, this, n, t);
        } else {
            lemma_stream_bits(
                msb,
                shift_word(a, self.unskew()),
                shift_word(b, self.skew as int),
                t,
            );
            if n == 32 || n == -32 {
                lemma_stream_shift(msb, a, 0, t);
                lemma_stream_bits(msb, prev, !mask, t);
                lemma_stream_bits(msb, mask, mask, t);
            } else {
                lemma_stream_shift(msb, b, n, t);
                lemma_stream_shift(msb, a, n - 32, t);
                if t + n < 32 {
                    lemma_stream_bits(msb, this, mask, t + n);
                    lemma_stream_shift(msb, ALL_ONES, -n, t + n);
                    lemma_stream_bits(msb, 0, 0, t);
                }
                if t + n - 32 >= 0 {
                    lemma_stream_bits(msb, prev, !mask, t + n - 32);
                    lemma_stream_bits(msb, mask, mask, t + n - 32);
                    lemma_stream_shift(msb, ALL_ONES, -n, t + n - 32);
                }
            }
        }
    }

    /// Which words a bit within the blit comes from.
    proof fn lemma_right_counts(self, size: nat, k: int, t: int)
        requires
            self.copies_right(),
            self.dest_form(size),
            self.source_form(size),
            0 <= k < self.dest_grid(false).words,
            0 <= t < 32,
        ensures
            self.in_columns(32 * (self.last_word() - k) + t) ==> {
                let ahead = self.copy_registers().ahead();
                let n = self.right_shift();
                let f = k + ahead;
                let c = 32 * (self.source_last() - k) + t + self.right_skew();
                if 0 <= t + n < 32 {
                    &&& f <= self.source_last() - self.source_first()
                    &&& c == 32 * (self.source_last() - f) + t + n
                } else {
                    &&& f >= 1
                    &&& c == 32 * (self.source_last() - (f - 1)) + t + n + (if n > 0 {
                        -32int
                    } else {
                        32
                    })
                }
            },
            1 <= k ==> k - 1 + self.copy_registers().ahead() <= self.source_last()
                - self.source_first(),
            -32 <= self.right_shift() <= 32,
            self.right_shift() == 32 ==> self.destMSB == 0,
            self.right_shift() == -32 ==> self.destMSB != 0,
    {
        let d = self.destDepth as int;
        self.lemma_words_right(size);
        self.lemma_source_words(size);
        self.lemma_words_in_row(size);
        self.lemma_row_words();
        let b = 32 * (self.last_word() - k) + t;
        assert(self.sx * d - self.dx * d == (self.sx - self.dx) * d && (self.sx + self.bbW) * d - (
        self.dx + self.bbW) * d == (self.sx - self.dx) * d) by (nonlinear_arith);
        if self.in_columns(b) {
            let c = 32 * (self.source_last() - k) + t + self.right_skew();
            assert(c == b + (self.sx - self.dx) * d);
            assert(32 * self.source_first() <= c < 32 * self.source_last() + 32);
        }
    }

    /// A word that does not count leaves no trace.
    proof fn lemma_right_masked(self, m: Seq<u8>, h: u32, i: int, k: int, this: u32, old: u32)
        requires
            self.copies_right(),
            self.dest_form(m.len()),
            self.source_form(m.len()),
            0 <= self.combinationRule <= 15,
            0 <= i < self.bbH,
            0 <= k < self.dest_grid(false).words,
            k + self.copy_registers().ahead() <= self.source_last() - self.source_first() ==> this
                == self.next_right(m, i, k),
        ensures
            self.ruled(
                self.with_dest_masks().word_mask(self.dest_grid(false).words - 1 - k),
                self.copy_registers().funnel(self.last_right(m, i, k), this) & h,
                old,
            ) == self.ruled(
                self.with_dest_masks().word_mask(self.dest_grid(false).words - 1 - k),
                self.copy_registers().funnel(
                    self.last_right(m, i, k),
                    self.next_right(m, i, k),
                ) & h,
                old,
            ),
    {
        let reg = self.copy_registers();
        let msb = self.destMSB != 0;
        let at = self.dest_grid(false).words - 1 - k;
        let mask = self.with_dest_masks().word_mask(at);
        let prev = self.last_right(m, i, k);
        let next = self.next_right(m, i, k);
        let x = reg.funnel(prev, this) & h;
        let z = reg.funnel(prev, next) & h;
        let a = self.ruled(mask, x, old);
        let b = self.ruled(mask, z, old);
        let n = self.right_shift();
        self.lemma_right_registers(m.len(), i, k);
        self.lemma_row_words();
        assert(reg.destMSB == self.destMSB);
        assert forall|t: int| 0 <= t < 32 implies #[trigger] stream_bit(msb, a, t) == stream_bit(
            msb,
            b,
            t,
        ) by {
            self.lemma_right_counts(m.len(), k, t);
            self.lemma_row_masks(at, t);
            self.lemma_ruled_bits(mask, x, old, t);
            self.lemma_ruled_bits(mask, z, old, t);
            reg.lemma_right_funnel(prev, this, n, t);
            reg.lemma_right_funnel(prev, next, n, t);
            lemma_stream_bits(msb, reg.funnel(prev, this), h, t);
            lemma_stream_bits(msb, reg.funnel(prev, next), h, t);
        }
        lemma_same_bits(msb, a, b);
    }

    proof fn lemma_right_words_done(self, m: Seq<u8>, p: Picture, h: u32, i: int, k: int)
        requires
            self.copies_right(),
            self.dest_form(m.len()),
            self.source_form(m.len()),
            0 <= self.combinationRule <= 15,
            0 <= i < self.bbH,
            0 <= k <= self.dest_grid(false).words,
            h == self.halftone_row(m, self.dy + i),
            self.dest_grid(false).reversed().done(m, p.mem, i, 0, self.right_words(m)),
        ensures
            self.dest_grid(false).reversed().done(
                m,
                self.copy_registers().copy_words(h, p, i, k).mem,
                i,
                k,
                self.right_words(m),
            ),
            k < self.dest_grid(false).words ==> self.copy_registers().copy_words(h, p, i, k).prev
                == self.last_right(m, i, k),
        decreases k,
    {
        let g = self.dest_grid(false);
        let r = g.reversed();
        let w = self.right_words(m);
        let reg = self.copy_registers();
        self.lemma_dest_grid(m.len(), false);
        self.lemma_reversed_grid(m.len());
        self.lemma_source_words(m.len());
        if k == 0 {
            self.lemma_right_registers(m.len(), i, 0);
            self.lemma_row_words();
            self.lemma_right_reads_first(m.len(), i, 0, 0);
            r.lemma_clear_word(m, p.mem, i, 0, w, self.right_addr(i, 0));
        } else {
            self.lemma_right_words_done(m, p, h, i, k - 1);
            self.lemma_right_registers(m.len(), i, k - 1);
            self.lemma_right_registers(m.len(), i, k - 1 + reg.ahead());
            let q = reg.copy_words(h, p, i, k - 1);
            let f = k - 1 + reg.ahead();
            let this = word_at(q.mem, self.right_addr(i, f));
            let old = word_at(m, r.addr(i, k - 1));
            if f <= self.source_last() - self.source_first() {
                self.lemma_right_reads_first(m.len(), i, k - 1, f);
                r.lemma_clear_word(m, q.mem, i, k - 1, w, self.right_addr(i, f));
            }
            r.lemma_own_word(m, q.mem, i, k - 1, w);
            reg.lemma_stores_ruled(
                reg.word_mask(k - 1),
                Picture { mem: q.mem, count: q.count },
                r.addr(i, k - 1),
                reg.funnel(q.prev, this) & h,
            );
            self.lemma_ruled_same(
                reg,
                reg.word_mask(k - 1),
                reg.funnel(q.prev, this) & h,
                old,
            );
            self.lemma_right_masked(m, h, i, k - 1, this, old);
            r.lemma_step(m, q.mem, i, k - 1, w);
            if k < g.words {
                self.lemma_right_counts(m.len(), k, 0);
            }
        }
    }

    /// The reversed grid is one of separate words too.
    proof fn lemma_reversed_grid(self, size: nat)
        requires
            self.dest_form(size),
        ensures
            self.dest_grid(false).reversed().apart(),
            self.dest_grid(false).reversed().within(size),
    {
        let g = self.dest_grid(false);
        self.lemma_dest_grid(size, false);
        assert forall|i: int, k: int| g.reversed().has(i, k) implies 0
            <= #[trigger] g.reversed().addr(i, k) && g.reversed().addr(i, k) + 4 <= size by {
            g.lemma_reversed_addr(i, k);
            assert(g.has(i, g.words - 1 - k));
            assert(0 <= g.addr(i, g.words - 1 - k));
        }
    }

    proof fn lemma_right_rows_done(self, m: Seq<u8>, p: Picture, i: int)
        requires
            self.copies_right(),
            self.dest_form(m.len()),
            self.source_form(m.len()),
            self.halftone_apart(m.len()),
            0 <= self.combinationRule <= 15,
            p.mem == m,
            0 <= i <= self.bbH,
        ensures
            self.dest_grid(false).reversed().done(
                m,
                self.copy_registers().copy_rows(p, i).mem,
                i,
                0,
                self.right_words(m),
            ),
        decreases i,
    {
        let g = self.dest_grid(false);
        let r = g.reversed();
        let w = self.right_words(m);
        let reg = self.copy_registers();
        if i == 0 {
            r.lemma_begin(m, w);
        } else {
            self.lemma_right_rows_done(m, p, i - 1);
            self.lemma_right_registers(m.len(), i - 1, 0);
            let q = reg.copy_rows(p, i - 1);
            let h = reg.copy_halftone(p.mem, q.mem, i - 1);
            let y = self.dy + (i - 1);
            assert(h == self.halftone_row(m, y)) by {
                if !self.noHalftone {
                    let n = y % self.halftoneHeight as int;
                    crate::bitblt::engine::lemma_remainder(y, self.halftoneHeight as int);
                    self.lemma_halftone_clear(m, q.mem, i - 1, w, n);
                    assert((i - 1) * 1int == i - 1);
                    if self.halftoneHeight == 1 {
                        assert(n == 0);
                    }
                }
            }
            self.lemma_right_words_done(m, q, h, i - 1, g.words);
            let row = reg.copy_words(h, q, i - 1, g.words);
            r.lemma_turn(m, row.mem, i - 1, w);
        }
    }

    /// The halftone words stay as they are while such a copy is under way.
    proof fn lemma_halftone_clear(
        self,
        m: Seq<u8>,
        now: Seq<u8>,
        i: int,
        w: spec_fn(int, int) -> u32,
        n: int,
    )
        requires
            self.dest_form(m.len()),
            self.halftone_apart(m.len()),
            !self.noHalftone,
            self.dest_grid(false).reversed().done(m, now, i, 0, w),
            0 <= n < self.halftoneHeight,
        ensures
            word_at(now, self.halftoneBase + n * 4) == word_at(m, self.halftoneBase + n * 4),
    {
        let g = self.dest_grid(false);
        let r = g.reversed();
        let f = self.halftoneBase + n * 4;
        self.lemma_words_in_row(m.len());
        assert forall|j: int, l: int| r.before(j, l, i, 0) implies (#[trigger] r.addr(j, l)) + 4
            <= f || f + 4 <= r.addr(j, l) by {
            g.lemma_reversed_addr(j, l);
            self.lemma_grid_addr(false, self.dy + j, g.words - 1 - l);
            self.lemma_row_in_form(m.len(), self.dy + j);
        }
        r.lemma_clear_word(m, now, i, 0, w, f);
    }

    /// Within its form, a copy to the right can be carried out. It may read one
    /// word more than the source has, so that much must come before it.
    pub proof fn lemma_right_runs(self, size: nat)
        requires
            self.copies_right(),
            1 <= self.bbH,
            self.dest_form(size),
            self.source_form(size),
            4 <= self.source_row(self.sy as int),
            self.merge_ok(size),
            self.halftone_ok(size),
            self.counts_fit(),
        ensures
            self.loop_ok(size),
    {
        reveal(BitBlt::loop_ok);
        let reg = self.copy_registers();
        let g = self.dest_grid(false);
        self.lemma_row_words();
        self.lemma_steps_fit();
        self.with_dest_masks().lemma_steps_fit();
        self.lemma_source_words(size);
        self.lemma_words_right(size);
        self.lemma_reversed_grid(size);
        self.lemma_right_registers(size, 0, 0);
        self.lemma_right_counts(size, 0, 0);
        assert forall|i: int, k: int|
            0 <= i < reg.bbH && 0 <= k < reg.row_words() implies 0 <= #[trigger] reg.put_addr(
            i,
            k,
        ) && reg.put_addr(i, k) + 4 <= size by {
            self.lemma_right_registers(size, i, k);
            assert(g.reversed().has(i, k));
        }
        assert forall|i: int, k: int|
            0 <= i < reg.bbH && 0 <= k < reg.row_words() + reg.ahead() implies 0
            <= #[trigger] reg.fetch_addr(i, k) && reg.fetch_addr(i, k) + 4 <= size by {
            self.lemma_right_registers(size, i, k);
            self.lemma_source_row(size, self.sy + i);
        }
        assert(reg.fetches_ok(size));
        assert(reg.puts_ok(size));
        assert((reg.bbH - 1) * reg.vDir == self.bbH - 1) by (nonlinear_arith)
            requires
                reg.bbH == self.bbH,
                reg.vDir == 1,
        ;
        assert(reg.copy_halftone_ok(size));
    }

    /// A copy to the right within the rows of one form does the same as a copy
    /// between two forms: it is as if the source had been read whole before.
    pub proof fn lemma_copy_right(self, m: Seq<u8>, y: int, b: int, a: int)
        requires
            self.copies_right(),
            0 <= self.combinationRule <= 15,
            self.dest_form(m.len()),
            self.source_form(m.len()),
            self.halftone_apart(m.len()),
            0 <= b < 8 * self.destPitch,
            0 <= self.dest_row(y),
            self.dest_row(y) + self.destPitch <= m.len(),
            0 <= a < m.len(),
        ensures
            row_bit(self.looped(m).mem, self.destMSB != 0, self.dest_row(y), b) == (
            if self.covers(y, b) {
                rule_bit(
                    self.combinationRule as int,
                    self.source_bit_for(m, y, b) && stream_bit(
                        self.destMSB != 0,
                        self.halftone_row(m, y),
                        b % 32,
                    ),
                    row_bit(m, self.destMSB != 0, self.dest_row(y), b),
                )
            } else {
                row_bit(m, self.destMSB != 0, self.dest_row(y), b)
            }),
            !(self.dest_row(self.dy as int) <= a < self.dest_row(self.dy + self.bbH))
                ==> self.looped(m).mem[a] == m[a],
    {
        reveal(BitBlt::looped);
        let g = self.dest_grid(false);
        let reg = self.copy_registers();
        let p = Picture { mem: m, count: reg.bitCount as int };
        self.lemma_right_rows_done(m, p, self.bbH as int);
        let after = reg.copy_rows(p, self.bbH as int).mem;
        assert(self.looped(m).mem == after);
        let s = |i: int, k: int| (self.right_source(m))(i, g.words - 1 - k);
        let w = self.ruled_words(m, g, s);
        assert forall|i: int, k: int| g.has(i, k) implies #[trigger] w(i, k) == (self.right_words(
            m,
        ))(i, g.words - 1 - k) by {
            g.lemma_reversed_addr(i, g.words - 1 - k);
        }
        g.lemma_reversed_done(m, after, w, self.right_words(m));
        self.lemma_by_bits(m, after, false, s, y, b);
        if self.covers(y, b) {
            let msb = self.destMSB != 0;
            let i = y - self.dy;
            let k = b / 32 - self.first_word();
            let t = b % 32;
            let l = g.words - 1 - k;
            self.lemma_words_in_row(m.len());
            self.lemma_words_right(m.len());
            self.lemma_row_words();
            assert(b == 32 * (b / 32) + t);
            let c = b + (self.sx - self.dx) * self.destDepth;
            let n = self.right_shift();
            let f = l + reg.ahead();
            let prev = self.last_right(m, i, l);
            let next = self.next_right(m, i, l);
            self.lemma_right_registers(m.len(), i, l);
            self.lemma_right_counts(m.len(), l, t);
            reg.lemma_right_funnel(prev, next, n, t);
            lemma_stream_bits(msb, reg.funnel(prev, next), self.halftone_row(m, y), t);
            assert(b == 32 * (self.last_word() - l) + t);
            assert(c == 32 * (self.source_last() - l) + t + self.right_skew());
            if 0 <= t + n < 32 {
                assert(c / 32 == self.source_last() - f && c % 32 == t + n);
            } else if n > 0 {
                assert(c / 32 == self.source_last() - (f - 1) && c % 32 == t + n - 32);
            } else {
                assert(c / 32 == self.source_last() - (f - 1) && c % 32 == t + n + 32);
            }
        }
        if !(self.dest_row(self.dy as int) <= a < self.dest_row(self.dy + self.bbH)) {
            self.lemma_rows_only(m, after, false, self.bbH as int, 0, w, a);
        }
    }
}

/// A mask of fewer bits is one of the bits of a larger one.
proof fn lemma_nested_masks(a: u32, b: u32, x: u32)
    requires
        a <= b < 32,
    ensures
        shr_word(ALL_ONES, a as int) & (shr_word(ALL_ONES, b as int) & x) == shr_word(
            ALL_ONES,
            b as int,
        ) & x,
        shl_word(ALL_ONES, a as int) & (shl_word(ALL_ONES, b as int) & x) == shl_word(
            ALL_ONES,
            b as int,
        ) & x,
        shr_word(ALL_ONES, a as int) & shr_word(ALL_ONES, b as int) == shr_word(ALL_ONES, b as int),
        shl_word(ALL_ONES, a as int) & shl_word(ALL_ONES, b as int) == shl_word(ALL_ONES, b as int),
{
    assert(a <= b && b < 32 ==> ((0xFFFF_FFFFu32 >> a) & ((0xFFFF_FFFFu32 >> b) & x) == (
    0xFFFF_FFFFu32 >> b) & x && (0xFFFF_FFFFu32 << a) & ((0xFFFF_FFFFu32 << b) & x) == (
    0xFFFF_FFFFu32 << b) & x && (0xFFFF_FFFFu32 >> a) & (0xFFFF_FFFFu32 >> b) == 0xFFFF_FFFFu32 >> b
        && (0xFFFF_FFFFu32 << a) & (0xFFFF_FFFFu32 << b) == 0xFFFF_FFFFu32 << b)) by (bit_vector);
}

} // verus!
