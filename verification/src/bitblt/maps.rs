//! What a copy between depths, bit orders or color maps makes of the
//! destination, bit by bit: every pixel of the rectangle is combined with the
//! source pixel that belongs there, taken through the color map.
use vstd::prelude::*;
use crate::prim::sqInt;
use crate::bitblt::memory::word_at;
use crate::bitblt::state::{
    shl_word, shr_word, width_mask, BitBlt, CmTable, COLOR_MAP_FIXED_PART, COLOR_MAP_INDEXED_PART,
    COLOR_MAP_PRESENT,
};
use crate::bitblt::engine::Picture;
use crate::bitblt::pixmap::Reader;
use crate::bitblt::bits::{
    lemma_moved_bits, lemma_quotient_of, lemma_stream_bits, lemma_word_bits, row_bit, rule_bit,
    stream_bit, word_bit,
};

verus! {

broadcast use crate::bitblt::memory::group_memory;

impl BitBlt {
    /// The blit goes through the general loop, and does not copy a form onto
    /// itself downwards or along its rows.
    pub open spec fn maps_plainly(self) -> bool {
        &&& !self.noSource
        &&& self.needs_pixmap()
        &&& !(self.sourceForm == self.destForm && self.dy >= self.sy)
        &&& self.sourceDepth == 1 || self.sourceDepth == 2 || self.sourceDepth == 4
            || self.sourceDepth == 8 || self.sourceDepth == 16 || self.sourceDepth == 32
    }

    /// The blit lies within a source form, and the form within a memory of this
    /// size.
    pub open spec fn map_source_within(self, size: nat) -> bool {
        &&& 0 <= self.sx && 0 <= self.sy
        &&& self.sx + self.bbW <= i32::MAX && self.sy + self.bbH <= i32::MAX
        &&& 4 <= self.sourcePitch && self.sourcePitch % 4 == 0
        &&& (self.sx + self.bbW) * self.sourceDepth <= 8 * self.sourcePitch
        &&& self.source_row(self.sy + self.bbH) <= size
    }

    /// Such a form apart from the rows that the blit writes.
    pub open spec fn map_source_form(self, size: nat) -> bool {
        &&& self.map_source_within(size)
        &&& self.source_row(self.sy + self.bbH) <= self.dest_row(self.dy as int) || self.dest_row(
            self.dy + self.bbH,
        ) <= self.source_row(self.sy as int)
    }

    /// A range of memory apart from the rows that the blit writes.
    pub open spec fn aside(self, at: int, size: int) -> bool {
        at + size <= self.dest_row(self.dy as int) || self.dest_row(self.dy + self.bbH) <= at
    }

    /// The tables of the color map can be read, and are apart from the rows that
    /// the blit writes.
    pub open spec fn map_aside(self, size: nat) -> bool {
        self.tables_aside(size, self.mapper_flags())
    }

    /// So are the tables that `flags` has.
    pub open spec fn tables_aside(self, size: nat, flags: sqInt) -> bool {
        &&& self.map_ok(size, flags)
        &&& flags & COLOR_MAP_PRESENT != 0 ==> {
            &&& flags & COLOR_MAP_FIXED_PART != 0 ==> {
                &&& self.cmShiftTable matches CmTable::Image(at) ==> self.aside(at as int, 16)
                &&& self.cmMaskTable matches CmTable::Image(at) ==> self.aside(at as int, 16)
            }
            &&& flags & COLOR_MAP_INDEXED_PART != 0 ==> self.aside(
                self.cmLookupTable as int,
                4 * (self.cmMask + 1),
            )
        }
    }

    /// Pixel `x` of row `y` of the source.
    pub open spec fn source_pixel(self, m: Seq<u8>, x: int, y: int) -> u32 {
        shr_word(
            word_at(m, self.source_row(y) + 4 * (x / self.source_ppw())),
            self.source_bit(x % self.source_ppw()),
        ) & width_mask(self.sourceDepth as int)
    }

    /// The source pixel that belongs to pixel `x` of row `y` of the destination,
    /// through the color map.
    pub open spec fn mapped_for(self, m: Seq<u8>, x: int, y: int) -> u32 {
        self.map_pixel(
            m,
            self.source_pixel(m, x - self.dx + self.sx, y - self.dy + self.sy) as sqInt,
            self.mapper_flags(),
        ) as u32
    }

    /// Which bit of a pixel the bit at place `r` of its row is, 0 being the
    /// lowest.
    pub open spec fn pixel_place_bit(self, r: int) -> u32 {
        (if self.destMSB != 0 {
            self.destDepth - 1 - r
        } else {
            r
        }) as u32
    }

    // ---- The reader -------------------------------------------------------

    /// The reader at pixel `x` of the row at an address.
    pub open spec fn pixel_reader(self, row: int, x: int) -> Reader {
        Reader {
            addr: row + 4 * (x / self.source_ppw()),
            shift: self.source_bit(x % self.source_ppw()),
        }
    }

    /// The depth of the source divides the word.
    proof fn lemma_source_ppw(self)
        requires
            self.maps_plainly(),
        ensures
            self.source_ppw() * self.sourceDepth == 32,
            1 <= self.source_ppw() <= 32,
    {
        let d = self.sourceDepth as int;
        let n = self.source_ppw();
        assert(n * d == 32 && 1 <= n <= 32) by (nonlinear_arith)
            requires
                d == 1 || d == 2 || d == 4 || d == 8 || d == 16 || d == 32,
                n == 32int / d,
        ;
    }

    /// The reader moves from pixel to pixel.
    proof fn lemma_reader_at(self, row: int, x: int, n: int)
        requires
            self.maps_plainly(),
            0 <= x,
            0 <= n,
        ensures
            self.reader_after(self.pixel_reader(row, x), self.source_inc(), n)
                == self.pixel_reader(row, x + n),
        decreases n,
    {
        if n > 0 {
            self.lemma_reader_at(row, x, n - 1);
            self.lemma_source_ppw();
            let ppw = self.source_ppw();
            let d = self.sourceDepth as int;
            let at = x + n - 1;
            let q = at / ppw;
            let p = at % ppw;
            vstd::arithmetic::div_mod::lemma_fundamental_div_mod(at, ppw);
            assert((p + 1) * d == p * d + d && 0 <= p * d) by (nonlinear_arith)
                requires
                    0 <= p,
                    1 <= d,
            ;
            if p + 1 < ppw {
                lemma_quotient_of(at + 1, ppw, q, p + 1);
                assert((p + 1) * d + d <= 32) by (nonlinear_arith)
                    requires
                        p + 2 <= ppw,
                        ppw * d == 32,
                        1 <= d,
                ;
            } else {
                assert(at + 1 == ppw * (q + 1)) by (nonlinear_arith)
                    requires
                        at == ppw * q + p,
                        p + 1 == ppw,
                ;
                lemma_quotient_of(at + 1, ppw, q + 1, 0);
                assert((p + 1) * d == 32) by (nonlinear_arith)
                    requires
                        p + 1 == ppw,
                        ppw * d == 32,
                ;
                assert(0 * d == 0);
            }
        }
    }

    // ---- Pixels of a row --------------------------------------------------

    /// How many pixels come before word `k` of a row.
    pub(crate) proof fn lemma_pix_before(self, size: nat, k: int)
        requires
            self.dest_form(size),
            0 <= k <= self.dest_grid(false).words,
        ensures
            ({
                let set = self.with_dest_masks();
                let words = self.dest_grid(false).words;
                &&& set.row_words() == words
                &&& k == 0 ==> set.pix_before(k) == 0
                &&& 0 < k < words ==> self.dx + set.pix_before(k) == self.destPPW * (
                self.first_word() + k)
                &&& k == words ==> set.pix_before(k) == self.bbW
                &&& k < words ==> set.pix_before(k) + set.pix_count(k) == set.pix_before(k + 1)
            }),
        decreases k,
    {
        let set = self.with_dest_masks();
        let ppw = self.destPPW as int;
        let words = self.dest_grid(false).words;
        let last = self.dx + self.bbW - 1;
        self.lemma_row_words();
        self.lemma_pixel_place(self.dx as int);
        self.lemma_pixel_place(last);
        vstd::arithmetic::div_mod::lemma_fundamental_div_mod(self.dx as int, ppw);
        vstd::arithmetic::div_mod::lemma_fundamental_div_mod(last, ppw);
        assert(set.pixels_from(self.dx as int) == self.pixels_from(self.dx as int));
        assert(set.pixels_to(last) == self.pixels_to(last));
        if k > 0 {
            self.lemma_pix_before(size, k - 1);
            let f = self.first_word();
            assert(ppw * (f + k) == ppw * (f + (k - 1)) + ppw) by (nonlinear_arith);
            assert(ppw * (f + 1) == ppw * f + ppw) by (nonlinear_arith);
            if k == words {
                assert(f + (k - 1) == self.last_word());
            }
        }
    }

    /// The place, within its word, of the first pixel of word `k` of a row.
    pub open spec fn start_place(self, k: int) -> int {
        if k == 0 {
            self.dx as int % self.destPPW as int
        } else {
            0
        }
    }

    /// The pixels of a word are those from its start place on, and the place of
    /// every bit of the blit is among them.
    pub(crate) proof fn lemma_places(self, size: nat, k: int)
        requires
            self.dest_form(size),
            0 <= k < self.dest_grid(false).words,
        ensures
            ({
                let set = self.with_dest_masks();
                &&& self.dx + set.pix_before(k) == self.destPPW * (self.first_word() + k)
                    + self.start_place(k)
                &&& 0 <= self.start_place(k)
                &&& 1 <= set.pix_count(k)
                &&& self.start_place(k) + set.pix_count(k) <= self.destPPW
                &&& set.pix_bit(k) == self.dest_bit(self.start_place(k))
                &&& 0 <= set.pix_before(k)
                &&& set.pix_before(k) + set.pix_count(k) <= self.bbW
                &&& k < self.dest_grid(false).words - 1 ==> self.start_place(k) + set.pix_count(k)
                    == self.destPPW
                &&& k == self.dest_grid(false).words - 1 ==> set.pix_before(k) + set.pix_count(k)
                    == self.bbW
            }),
    {
        let set = self.with_dest_masks();
        let ppw = self.destPPW as int;
        let last = self.dx + self.bbW - 1;
        self.lemma_row_words();
        self.lemma_pix_before(size, k);
        self.lemma_pix_before(size, k + 1);
        self.lemma_pixel_place(self.dx as int);
        self.lemma_pixel_place(last);
        set.lemma_pix_count(k);
        vstd::arithmetic::div_mod::lemma_fundamental_div_mod(self.dx as int, ppw);
        assert(set.dest_place(self.dx as int) == self.dx as int % ppw);
        let f = self.first_word();
        assert(ppw * (f + (k + 1)) == ppw * (f + k) + ppw) by (nonlinear_arith);
        self.lemma_pix_before_mono(size, k + 1);
        if 0 < k {
            self.lemma_pix_before_mono(size, k);
        }
    }

    /// No more pixels come before a word than the row has.
    proof fn lemma_pix_before_mono(self, size: nat, k: int)
        requires
            self.dest_form(size),
            0 <= k <= self.dest_grid(false).words,
        ensures
            0 <= self.with_dest_masks().pix_before(k) <= self.bbW,
        decreases self.dest_grid(false).words - k,
    {
        let set = self.with_dest_masks();
        self.lemma_row_words();
        if k < self.dest_grid(false).words {
            self.lemma_pix_before_mono(size, k + 1);
            self.lemma_pix_before(size, k);
            set.lemma_pix_count(k);
        } else {
            self.lemma_pix_before(size, k);
        }
        self.lemma_before_positive(k);
    }

    proof fn lemma_before_positive(self, k: int)
        requires
            self.dest_wf(),
            1 <= self.bbW,
        ensures
            0 <= self.with_dest_masks().pix_before(k),
        decreases k,
    {
        if k > 0 {
            self.lemma_before_positive(k - 1);
            self.with_dest_masks().lemma_pix_count(k - 1);
        }
    }

    /// The reader at the start of row `i`, and where it is after some pixels.
    proof fn lemma_reader_in_row(self, size: nat, i: int, n: int)
        requires
            self.maps_plainly(),
            self.dest_form(size),
            self.map_source_within(size),
            0 <= i,
            0 <= n,
        ensures
            ({
                let set = self.with_dest_masks();
                set.reader_after(set.row_reader(i), set.source_inc(), n) == self.pixel_reader(
                    self.source_row(self.sy + i),
                    self.sx + n,
                )
            }),
    {
        let set = self.with_dest_masks();
        let ppw = self.source_ppw();
        self.lemma_source_ppw();
        self.lemma_row_words();
        let words = self.dest_grid(false).words;
        self.lemma_pix_before(size, words);
        let row = self.source_row(self.sy as int);
        let sx = self.sx as int;
        crate::bitblt::bits::lemma_low_bits(self.sx as sqInt, ppw as sqInt);
        assert(self.source_place(sx) == sx % ppw);
        assert(crate::bitblt::setup::quotient(sx, ppw) == sx / ppw);
        assert(set.first_reader() == self.pixel_reader(row, sx));
        self.lemma_reader_same(set.first_reader(), set.source_inc(), self.bbW as int);
        self.lemma_reader_at(row, sx, self.bbW as int);
        let used = set.source_words_used();
        vstd::arithmetic::div_mod::lemma_fundamental_div_mod(sx, ppw);
        vstd::arithmetic::div_mod::lemma_fundamental_div_mod(sx + self.bbW, ppw);
        let a = sx % ppw;
        let q = sx / ppw;
        let z = (sx + self.bbW) / ppw;
        let e = (sx + self.bbW) % ppw;
        assert(used == z - q) by {
            if self.bbW < ppw - a {
                assert(z == q) by (nonlinear_arith)
                    requires
                        sx == ppw * q + a,
                        sx + self.bbW == ppw * z + e,
                        0 <= e < ppw,
                        0 <= a,
                        0 < self.bbW < ppw - a,
                ;
            } else {
                let n = self.bbW - (ppw - a);
                assert(n == ppw * (z - q - 1) + e) by (nonlinear_arith)
                    requires
                        n == self.bbW - (ppw - a),
                        sx == ppw * q + a,
                        sx + self.bbW == ppw * z + e,
                ;
                lemma_quotient_of(n, ppw, z - q - 1, e);
            }
        }
        assert(set.pix_row_step() == self.sourcePitch);
        let p = self.sourcePitch as int;
        assert(row + i * p == self.source_row(self.sy + i)) by (nonlinear_arith)
            requires
                row == self.sourceBits + self.sy * p,
                self.source_row(self.sy + i) == self.sourceBits + (self.sy + i) * p,
        ;
        assert(set.row_reader(i) == self.pixel_reader(self.source_row(self.sy + i), sx));
        self.lemma_reader_same(set.row_reader(i), set.source_inc(), n);
        self.lemma_reader_at(self.source_row(self.sy + i), sx, n);
    }

    /// The masks do not matter to the reader.
    proof fn lemma_reader_same(self, r: Reader, inc: int, n: int)
        ensures
            self.with_dest_masks().reader_after(r, inc, n) == self.reader_after(r, inc, n),
        decreases n,
    {
        if n > 0 {
            self.lemma_reader_same(r, inc, n - 1);
        }
    }

    // ---- Picking ----------------------------------------------------------

    /// The color map gives the same as long as its tables are as they were.
    pub(crate) proof fn lemma_map_same(self, m: Seq<u8>, now: Seq<u8>, pixel: sqInt, flags: sqInt)
        requires
            self.tables_aside(m.len(), flags),
            self.rows_alone(m, now),
        ensures
            self.map_pixel(now, pixel, flags) == self.map_pixel(m, pixel, flags),
    {
        if flags & COLOR_MAP_PRESENT != 0 {
            if flags & COLOR_MAP_FIXED_PART != 0 {
                if let CmTable::Image(at) = self.cmShiftTable {
                    self.lemma_kept_word(m, now, at as int);
                    self.lemma_kept_word(m, now, at + 4);
                    self.lemma_kept_word(m, now, at + 8);
                    self.lemma_kept_word(m, now, at + 12);
                }
                if let CmTable::Image(at) = self.cmMaskTable {
                    self.lemma_kept_word(m, now, at as int);
                    self.lemma_kept_word(m, now, at + 4);
                    self.lemma_kept_word(m, now, at + 8);
                    self.lemma_kept_word(m, now, at + 12);
                }
                assert(self.map_fixed(now, pixel) == self.map_fixed(m, pixel));
            }
            if flags & COLOR_MAP_INDEXED_PART != 0 {
                let fixed = self.map_fixed(m, pixel);
                let pv = if flags & COLOR_MAP_FIXED_PART == 0 {
                    pixel
                } else if fixed == 0 && pixel != 0 {
                    1
                } else {
                    fixed
                };
                self.lemma_lookup_addr(m, pv);
                self.lemma_kept_word(m, now, self.lookup_addr(pv));
            }
        }
    }

    /// So it does while a blit is under way.
    pub(crate) proof fn lemma_map_stays(
        self,
        m: Seq<u8>,
        now: Seq<u8>,
        i: int,
        k: int,
        w: spec_fn(int, int) -> u32,
        pixel: sqInt,
        flags: sqInt,
    )
        requires
            self.dest_form(m.len()),
            self.tables_aside(m.len(), flags),
            self.dest_grid(false).done(m, now, i, k, w),
        ensures
            self.map_pixel(now, pixel, flags) == self.map_pixel(m, pixel, flags),
    {
        assert forall|a: int|
            0 <= a < m.len() && !(self.dest_row(self.dy as int) <= a < self.dest_row(
                self.dy + self.bbH,
            )) implies #[trigger] now[a] == m[a] by {
            self.lemma_rows_only(m, now, false, i, k, w, a);
        }
        self.lemma_map_same(m, now, pixel, flags);
    }

    /// What is picked for word `k` of row `i`, from the first `n` of its pixels.
    pub open spec fn picked_of(self, m: Seq<u8>, i: int, k: int, n: int) -> u32 {
        let set = self.with_dest_masks();
        set.picked(
            m,
            self.pixel_reader(self.source_row(self.sy + i), self.sx + set.pix_before(k)),
            set.mapper_flags(),
            width_mask(self.sourceDepth as int),
            width_mask(self.destDepth as int),
            set.source_inc(),
            set.pix_bit(k),
            set.dest_inc(),
            n,
        )
    }

    /// The pixel that is picked `n`th for word `k` of row `i`.
    proof fn lemma_picked_pixel(self, m: Seq<u8>, i: int, k: int, n: int)
        requires
            self.maps_plainly(),
            self.dest_form(m.len()),
            self.map_source_form(m.len()),
            0 <= i,
            0 <= k < self.dest_grid(false).words,
            0 <= n,
        ensures
            ({
                let set = self.with_dest_masks();
                let r = self.pixel_reader(
                    self.source_row(self.sy + i),
                    self.sx + set.pix_before(k),
                );
                set.mapped_at(
                    m,
                    set.reader_after(r, set.source_inc(), n),
                    set.mapper_flags(),
                    width_mask(self.sourceDepth as int),
                ) == self.mapped_for(m, self.dx + set.pix_before(k) + n, self.dy + i)
            }),
    {
        let set = self.with_dest_masks();
        let row = self.source_row(self.sy + i);
        let x = self.sx + set.pix_before(k);
        self.lemma_before_positive(k);
        self.lemma_reader_same(self.pixel_reader(row, x), set.source_inc(), n);
        self.lemma_reader_at(row, x, n);
        assert(set.map_pixel(
            m,
            self.source_pixel(m, x + n, self.sy + i) as sqInt,
            set.mapper_flags(),
        ) == self.map_pixel(
            m,
            self.source_pixel(m, x + n, self.sy + i) as sqInt,
            self.mapper_flags(),
        ));
    }

    /// Picking gives the same as long as source and color map are as they were.
    proof fn lemma_picked_stays(
        self,
        m: Seq<u8>,
        now: Seq<u8>,
        i: int,
        k: int,
        j: int,
        w: spec_fn(int, int) -> u32,
        n: int,
    )
        requires
            self.maps_plainly(),
            self.dest_form(m.len()),
            self.map_source_form(m.len()),
            self.map_aside(m.len()),
            self.dest_grid(false).done(m, now, i, j, w),
            0 <= i < self.bbH,
            0 <= k < self.dest_grid(false).words,
            0 <= n <= self.with_dest_masks().pix_count(k),
        ensures
            self.picked_of(now, i, k, n) == self.picked_of(m, i, k, n),
        decreases n,
    {
        if n > 0 {
            self.lemma_picked_stays(m, now, i, k, j, w, n - 1);
            let set = self.with_dest_masks();
            let at = self.dx + set.pix_before(k) + n - 1;
            self.lemma_places(m.len(), k);
            self.lemma_picked_pixel(m, i, k, n - 1);
            self.lemma_picked_pixel(now, i, k, n - 1);
            let x = at - self.dx + self.sx;
            let y = self.sy + i;
            let f = self.source_row(y) + 4 * (x / self.source_ppw());
            self.lemma_source_place(m.len(), x, y);
            self.lemma_word_outside(m, now, i, j, w, f);
            let pixel = self.source_pixel(m, x, y) as sqInt;
            self.lemma_map_stays(m, now, i, j, w, pixel, self.mapper_flags());
        }
    }

    /// The source pixels of the blit lie in the rows of the source.
    proof fn lemma_source_place(self, size: nat, x: int, y: int)
        requires
            self.maps_plainly(),
            self.dest_form(size),
            self.map_source_within(size),
            self.sx <= x < self.sx + self.bbW,
            self.sy <= y < self.sy + self.bbH,
        ensures
            ({
                let f = self.source_row(y) + 4 * (x / self.source_ppw());
                &&& self.source_row(self.sy as int) <= f
                &&& f + 4 <= self.source_row(self.sy + self.bbH)
                &&& 0 <= f
                &&& f + 4 <= size
            }),
    {
        let p = self.sourcePitch as int;
        let d = self.sourceDepth as int;
        let ppw = self.source_ppw();
        self.lemma_source_ppw();
        vstd::arithmetic::div_mod::lemma_fundamental_div_mod(x, ppw);
        let q = x / ppw;
        let r = x % ppw;
        assert(x * d == 32 * q + r * d && 0 <= r * d) by (nonlinear_arith)
            requires
                x == ppw * q + r,
                ppw * d == 32,
                0 <= r,
                1 <= d,
        ;
        assert(x * d < (self.sx + self.bbW) * d) by (nonlinear_arith)
            requires
                x < self.sx + self.bbW,
                1 <= d,
        ;
        assert(0 <= q) by (nonlinear_arith)
            requires
                0 <= x,
                q == x / ppw,
                0 < ppw,
        ;
        assert(4 * q + 4 <= p);
        assert(self.sy * p <= y * p && 0 <= self.sy * p && y * p + p <= (self.sy + self.bbH) * p)
            by (nonlinear_arith)
            requires
                0 <= self.sy <= y,
                y + 1 <= self.sy + self.bbH,
                0 <= p,
        ;
    }

    /// Within its forms, a blit through the general loop can be carried out.
    pub proof fn lemma_map_runs(self, size: nat)
        requires
            self.maps_plainly(),
            self.dest_form(size),
            self.map_source_within(size),
            self.merge_ok(size),
            self.map_ok(size, self.mapper_flags()),
            self.halftone_ok(size),
            self.counts_fit(),
        ensures
            self.loop_ok(size),
    {
        reveal(BitBlt::loop_ok);
        let set = self.with_dest_masks();
        let g = self.dest_grid(false);
        self.lemma_row_words();
        self.lemma_steps_fit();
        assert(self.loop_registers() == set.with_direction());
        assert(set.with_direction() == set);
        if self.bbH > 0 {
            self.lemma_dest_grid(size, false);
            assert forall|i: int, k: int|
                0 <= i < set.bbH && 0 <= k < set.row_words() implies 0 <= #[trigger] set.forward_word(
                i,
                k,
            ) && set.forward_word(i, k) + 4 <= size by {
                self.lemma_forward_grid(size, i);
                assert(g.has(i, k));
                assert(g.addr(i, k) == g.addr(i, 0) + 4 * k);
            }
            assert forall|i: int, t: int|
                0 <= i < set.bbH && 0 <= t < set.pix_before(set.row_words()) implies 0 <= (
            #[trigger] set.reader_after(set.row_reader(i), set.source_inc(), t)).addr
                && set.reader_after(set.row_reader(i), set.source_inc(), t).addr + 4 <= size by {
                self.lemma_pix_before(size, g.words);
                self.lemma_reader_in_row(size, i, t);
                self.lemma_source_place(size, self.sx + t, self.sy + i);
            }
        }
        assert(set.forward_rows_ok(size));
        assert(set.pix_reads_ok(size));
        assert(set.row_words() == g.words);
    }

    /// The bits of what is picked are those of the mapped pixels.
    proof fn lemma_picked_bits(self, m: Seq<u8>, i: int, k: int, n: int, t: int)
        requires
            self.maps_plainly(),
            self.dest_form(m.len()),
            self.map_source_form(m.len()),
            0 <= i,
            0 <= k < self.dest_grid(false).words,
            0 <= n <= self.with_dest_masks().pix_count(k),
            0 <= t < 32,
        ensures
            ({
                let set = self.with_dest_masks();
                let d = self.destDepth as int;
                let p = t / d - self.start_place(k);
                stream_bit(self.destMSB != 0, self.picked_of(m, i, k, n), t) == (0 <= p < n
                    && word_bit(
                    self.mapped_for(m, self.dx + set.pix_before(k) + p, self.dy + i),
                    self.pixel_place_bit(t % d),
                ))
            }),
        decreases n,
    {
        let set = self.with_dest_masks();
        let msb = self.destMSB != 0;
        let d = self.destDepth as int;
        let p = t / d - self.start_place(k);
        lemma_stream_bits(msb, 0, 0, t);
        if n > 0 {
            self.lemma_picked_bits(m, i, k, n - 1, t);
            self.lemma_places(m.len(), k);
            self.lemma_pixel_place(self.dx as int);
            self.lemma_picked_pixel(m, i, k, n - 1);
            let v = self.mapped_for(m, self.dx + set.pix_before(k) + (n - 1), self.dy + i);
            let place = self.start_place(k) + n - 1;
            let c = set.pix_bit(k) + (n - 1) * set.dest_inc();
            assert(c == self.dest_bit(place)) by (nonlinear_arith)
                requires
                    set.pix_bit(k) == self.dest_bit(self.start_place(k)),
                    place == self.start_place(k) + n - 1,
                    c == set.pix_bit(k) + (n - 1) * set.dest_inc(),
                    set.dest_inc() == (if self.destMSB != 0 {
                        -d
                    } else {
                        d
                    }),
                    self.dest_bit(place) == (if self.destMSB != 0 {
                        32 - d - place * d
                    } else {
                        place * d
                    }),
                    self.dest_bit(self.start_place(k)) == (if self.destMSB != 0 {
                        32 - d - self.start_place(k) * d
                    } else {
                        self.start_place(k) * d
                    }),
            ;
            assert(0 <= place * d && place * d + d <= 32) by (nonlinear_arith)
                requires
                    0 <= place,
                    place + 1 <= self.destPPW,
                    self.destPPW * d == 32,
                    1 <= d,
            ;
            let term = shl_word(v & width_mask(d), c);
            let before = self.picked_of(m, i, k, n - 1);
            assert(self.picked_of(m, i, k, n) == before | term);
            lemma_stream_bits(msb, before, term, t);
            self.lemma_term_bit(v, place, t);
        }
    }

    /// A pixel put at a place of a word.
    pub(crate) proof fn lemma_term_bit(self, v: u32, place: int, t: int)
        requires
            self.whole_pixels(),
            0 <= t < 32,
            0 <= place * self.destDepth,
            place * self.destDepth + self.destDepth <= 32,
        ensures
            stream_bit(
                self.destMSB != 0,
                shl_word(v & width_mask(self.destDepth as int), self.dest_bit(place)),
                t,
            ) == (t / (self.destDepth as int) == place && word_bit(
                v,
                self.pixel_place_bit(t % (self.destDepth as int)),
            )),
    {
        let d = self.destDepth as int;
        let c = self.dest_bit(place);
        let x = v & width_mask(d);
        let at = if self.destMSB != 0 {
            31 - t
        } else {
            t
        };
        vstd::arithmetic::div_mod::lemma_fundamental_div_mod(t, d);
        let q = t / d;
        let r = t % d;
        lemma_moved_bits(x, c as u32, at as u32);
        assert(q == place ==> t == place * d + r) by (nonlinear_arith)
            requires
                t == d * q + r,
        ;
        if at >= c {
            let b = (at - c) as u32;
            lemma_word_bits(v, width_mask(d), b);
            lemma_width_bits(d, b);
        }
        if place * d <= t < place * d + d {
            assert(q == place) by (nonlinear_arith)
                requires
                    t == d * q + r,
                    0 <= r < d,
                    place * d <= t < place * d + d,
            ;
        }
    }

    // ---- The loop ---------------------------------------------------------

    /// The source words of the general loop.
    pub open spec fn map_source(self, m: Seq<u8>) -> spec_fn(int, int) -> u32 {
        |i: int, k: int|
            self.picked_of(m, i, k, self.with_dest_masks().pix_count(k)) & self.halftone_at(
                m,
                self.dy + i,
            )
    }

    proof fn lemma_map_words_done(self, m: Seq<u8>, p: Picture, h: u32, i: int, k: int)
        requires
            self.maps_plainly(),
            self.dest_form(m.len()),
            self.map_source_form(m.len()),
            self.map_aside(m.len()),
            self.word_by_word(),
            0 <= i < self.bbH,
            0 <= k <= self.dest_grid(false).words,
            h == self.halftone_at(m, self.dy + i),
            self.dest_grid(false).done(
                m,
                p.mem,
                i,
                0,
                self.ruled_words(m, self.dest_grid(false), self.map_source(m)),
            ),
        ensures
            self.dest_grid(false).done(
                m,
                self.with_dest_masks().pix_words(h, p, i, k).mem,
                i,
                k,
                self.ruled_words(m, self.dest_grid(false), self.map_source(m)),
            ),
        decreases k,
    {
        let g = self.dest_grid(false);
        let w = self.ruled_words(m, g, self.map_source(m));
        let set = self.with_dest_masks();
        if k > 0 {
            self.lemma_map_words_done(m, p, h, i, k - 1);
            self.lemma_dest_grid(m.len(), false);
            self.lemma_forward_grid(m.len(), i);
            self.lemma_row_words();
            self.lemma_places(m.len(), k - 1);
            set.lemma_pix_words(h, p, i, k - 1);
            self.lemma_reader_in_row(m.len(), i, set.pix_before(k - 1));
            let q = set.pix_words(h, p, i, k - 1);
            let n = set.pix_count(k - 1);
            let v = self.picked_of(q.mem, i, k - 1, n);
            self.lemma_picked_stays(m, q.mem, i, k - 1, k - 1, w, n);
            assert(set.forward_word(i, k - 1) == g.addr(i, k - 1));
            g.lemma_own_word(m, q.mem, i, k - 1, w);
            self.lemma_whole_masks(k - 1);
            set.lemma_stores_ruled(
                set.word_mask(k - 1),
                Picture { mem: q.mem, count: q.count },
                g.addr(i, k - 1),
                v & h,
            );
            self.lemma_ruled_same(
                set,
                set.word_mask(k - 1),
                v & h,
                word_at(m, g.addr(i, k - 1)),
            );
            g.lemma_step(m, q.mem, i, k - 1, w);
        }
    }

    pub(crate) proof fn lemma_map_rows_done(self, m: Seq<u8>, p: Picture, i: int)
        requires
            self.maps_plainly(),
            self.dest_form(m.len()),
            self.map_source_form(m.len()),
            self.map_aside(m.len()),
            self.halftone_apart(m.len()),
            self.word_by_word(),
            p.mem == m,
            0 <= i <= self.bbH,
        ensures
            self.dest_grid(false).done(
                m,
                self.with_dest_masks().pix_rows(p, i).mem,
                i,
                0,
                self.ruled_words(m, self.dest_grid(false), self.map_source(m)),
            ),
        decreases i,
    {
        let g = self.dest_grid(false);
        let w = self.ruled_words(m, g, self.map_source(m));
        let set = self.with_dest_masks();
        if i == 0 {
            g.lemma_begin(m, w);
        } else {
            self.lemma_map_rows_done(m, p, i - 1);
            let q = set.pix_rows(p, i - 1);
            let h = set.halftone_at(q.mem, set.dy + i - 1);
            if !self.noHalftone {
                let n = (self.dy + i - 1) % self.halftoneHeight as int;
                crate::bitblt::engine::lemma_remainder(
                    self.dy + i - 1,
                    self.halftoneHeight as int,
                );
                self.lemma_halftone_stays(m, q.mem, false, i - 1, w, n);
            }
            assert(h == self.halftone_at(m, self.dy + i - 1));
            self.lemma_forward_grid(m.len(), i - 1);
            self.lemma_map_words_done(m, q, h, i - 1, g.words);
            let row = set.pix_words(h, q, i - 1, g.words);
            g.lemma_turn(m, row.mem, i - 1, w);
        }
    }

    /// A copy through the general loop combines every pixel of its rectangle with
    /// the source pixel that belongs there, taken through the color map. Every
    /// other bit of the form stays, and so does the memory outside the rows of
    /// the blit.
    pub proof fn lemma_map(self, m: Seq<u8>, y: int, b: int, a: int)
        requires
            self.maps_plainly(),
            0 <= self.combinationRule <= 15,
            self.dest_form(m.len()),
            self.map_source_form(m.len()),
            self.map_aside(m.len()),
            self.halftone_apart(m.len()),
            0 <= b < 8 * self.destPitch,
            0 <= self.dest_row(y),
            self.dest_row(y) + self.destPitch <= m.len(),
            0 <= a < m.len(),
        ensures
            row_bit(self.looped(m).mem, self.destMSB != 0, self.dest_row(y), b) == (
            if self.covers(y, b) {
                rule_bit(
                    self.combinationRule as int,
                    word_bit(
                        self.mapped_for(m, b / (self.destDepth as int), y),
                        self.pixel_place_bit(b % (self.destDepth as int)),
                    ) && stream_bit(self.destMSB != 0, self.halftone_at(m, y), b % 32),
                    row_bit(m, self.destMSB != 0, self.dest_row(y), b),
                )
            } else {
                row_bit(m, self.destMSB != 0, self.dest_row(y), b)
            }),
            !(self.dest_row(self.dy as int) <= a < self.dest_row(self.dy + self.bbH))
                ==> self.looped(m).mem[a] == m[a],
    {
        reveal(BitBlt::looped);
        let set = self.with_dest_masks();
        assert(self.loop_registers() == set);
        let p = Picture { mem: m, count: set.bitCount as int };
        self.lemma_map_rows_done(m, p, self.bbH as int);
        let after = set.pix_rows(p, self.bbH as int).mem;
        assert(self.looped(m).mem == after);
        self.lemma_by_bits(m, after, false, self.map_source(m), y, b);
        if self.covers(y, b) {
            self.lemma_map_source_bits(m, y, b);
        }
        if !(self.dest_row(self.dy as int) <= a < self.dest_row(self.dy + self.bbH)) {
            self.lemma_rows_only(
                m,
                after,
                false,
                self.bbH as int,
                0,
                self.ruled_words(m, self.dest_grid(false), self.map_source(m)),
                a,
            );
        }
    }

    /// The bits of the words that the general loop merges are those of the mapped
    /// pixels.
    pub(crate) proof fn lemma_map_source_bits(self, m: Seq<u8>, y: int, b: int)
        requires
            self.maps_plainly(),
            self.dest_form(m.len()),
            self.map_source_form(m.len()),
            self.covers(y, b),
        ensures
            stream_bit(
                self.destMSB != 0,
                (self.map_source(m))(y - self.dy, b / 32 - self.first_word()),
                b % 32,
            ) == (word_bit(
                self.mapped_for(m, b / (self.destDepth as int), y),
                self.pixel_place_bit(b % (self.destDepth as int)),
            ) && stream_bit(self.destMSB != 0, self.halftone_at(m, y), b % 32)),
    {
        let set = self.with_dest_masks();
        let i = y - self.dy;
        let k = b / 32 - self.first_word();
        let t = b % 32;
        self.lemma_bit_of_pixel(m.len(), y, b);
        let n = set.pix_count(k);
        self.lemma_picked_bits(m, i, k, n, t);
        let v = self.picked_of(m, i, k, n);
        lemma_stream_bits(self.destMSB != 0, v, self.halftone_at(m, y), t);
    }

    /// Where a bit of the blit is: in which word of the row, at which of the
    /// word's pixels, and which of the pixel's bits it is.
    pub(crate) proof fn lemma_bit_of_pixel(self, size: nat, y: int, b: int)
        requires
            self.dest_form(size),
            self.covers(y, b),
        ensures
            ({
                let set = self.with_dest_masks();
                let d = self.destDepth as int;
                let k = b / 32 - self.first_word();
                let p = (b % 32) / d - self.start_place(k);
                &&& 0 <= k < self.dest_grid(false).words
                &&& 0 <= p < set.pix_count(k)
                &&& self.dx + set.pix_before(k) + p == b / d
                &&& (b % 32) % d == b % d
            }),
    {
        let set = self.with_dest_masks();
        let d = self.destDepth as int;
        let ppw = self.destPPW as int;
        let k = b / 32 - self.first_word();
        let t = b % 32;
        self.lemma_words_in_row(size);
        self.lemma_row_words();
        self.lemma_pixel_place(self.dx as int);
        self.lemma_pixel_place(self.dx + self.bbW - 1);
        assert(b == 32 * (b / 32) + t);
        assert(0 <= k < self.dest_grid(false).words);
        self.lemma_places(size, k);
        let c = b / 32;
        vstd::arithmetic::div_mod::lemma_fundamental_div_mod(t, d);
        let q = t / d;
        let r = t % d;
        assert(b == d * (ppw * c + q) + r) by (nonlinear_arith)
            requires
                b == 32 * c + t,
                t == d * q + r,
                ppw * d == 32,
        ;
        lemma_quotient_of(b, d, ppw * c + q, r);
        let x = b / d;
        assert(x == ppw * c + q);
        assert(self.dx <= x < self.dx + self.bbW) by (nonlinear_arith)
            requires
                self.dx * d <= b < (self.dx + self.bbW) * d,
                b == d * x + r,
                0 <= r < d,
        ;
        assert(0 <= q < ppw) by (nonlinear_arith)
            requires
                t == d * q + r,
                0 <= t < 32,
                0 <= r < d,
                ppw * d == 32,
        ;
        assert(ppw * (self.first_word() + k) == ppw * c);
        if k == 0 {
            vstd::arithmetic::div_mod::lemma_fundamental_div_mod(self.dx as int, ppw);
        }
    }
}

/// The mask of a width has the bits below it set.
proof fn lemma_width_bits(d: int, p: u32)
    requires
        d == 1 || d == 2 || d == 4 || d == 8 || d == 16 || d == 32,
        p < 32,
    ensures
        word_bit(width_mask(d), p) == (p < d),
{
    assert(p < 32 ==> (word_bit(1, p) == (p < 1) && word_bit(3, p) == (p < 2) && word_bit(15, p)
        == (p < 4) && word_bit(255, p) == (p < 8) && word_bit(65535, p) == (p < 16) && word_bit(
        0xFFFF_FFFF,
        p,
    ))) by (bit_vector);
}

} // verus!
