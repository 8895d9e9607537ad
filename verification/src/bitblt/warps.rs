//! What a warp makes of the destination, bit by bit: every pixel of the rectangle
//! is combined with what the warp finds at the pixel's place in the source.
use vstd::prelude::*;
use crate::prim::{sqInt, UsqInt};
use crate::bitblt::blit::{WarpArgs, WarpCorners};
use crate::bitblt::memory::word_at;
use crate::bitblt::state::{shl_word, shr_word, width_mask, BitBlt, FIXED_PT1};
use crate::bitblt::engine::Picture;
use crate::bitblt::bits::{lemma_stream_bits, row_bit, rule_bit, stream_bit, word_bit};
use crate::bitblt::warp::{moved, walked, warp_delta, Square, Sums, Walk};
use crate::bitblt::warploop::{Warp, WarpStrip};

verus! {

broadcast use crate::bitblt::memory::group_memory;

/// A coordinate `n` steps on.
pub open spec fn walk_to(s: i32, d: sqInt, n: int) -> i32
    decreases n,
{
    if n <= 0 {
        s
    } else {
        moved(walk_to(s, d, n - 1), d)
    }
}

/// The way across the source that a row of the destination takes, in fixed point:
/// where it starts and its steps.
pub struct Lane {
    pub x: i32,
    pub y: i32,
    pub xd: sqInt,
    pub yd: sqInt,
}

impl Lane {
    /// Where the way has come to after `n` pixels.
    pub open spec fn x_at(self, n: int) -> i32 {
        walk_to(self.x, self.xd, n)
    }

    pub open spec fn y_at(self, n: int) -> i32 {
        walk_to(self.y, self.yd, n)
    }
}

/// A walk goes straight on: as long as it stays within the range of a coordinate,
/// every step adds the same.
pub proof fn lemma_walk_straight(s: i32, d: sqInt, n: int)
    requires
        0 <= n,
        i32::MIN <= s + n * d <= i32::MAX,
    ensures
        walk_to(s, d, n) == s + n * d,
    decreases n,
{
    if n > 0 {
        let before = s + (n - 1) * d;
        assert(s + n * d == before + d) by (nonlinear_arith)
            requires
                before == s + (n - 1) * d,
        ;
        assert(i32::MIN <= before <= i32::MAX) by (nonlinear_arith)
            requires
                1 <= n,
                before == s + (n - 1) * d,
                i32::MIN <= s <= i32::MAX,
                i32::MIN <= s + n * d <= i32::MAX,
        ;
        lemma_walk_straight(s, d, n - 1);
    } else {
        assert(n * d == 0) by (nonlinear_arith)
            requires
                n == 0,
        ;
    }
}

/// The same sums, whatever bit position they left behind.
pub open spec fn same_sums(p: Sums, q: Sums) -> bool {
    p.a == q.a && p.r == q.r && p.g == q.g && p.b == q.b && p.n == q.n
}

impl BitBlt {
    /// The way of row `i`.
    pub open spec fn lane(self, w: Warp, i: int) -> Lane {
        let ends = self.row_quad(w, i);
        Lane {
            x: self.row_start(ends.ax, ends.bx),
            y: self.row_start(ends.ay, ends.by),
            xd: self.row_delta(ends.ax, ends.bx),
            yd: self.row_delta(ends.ay, ends.by),
        }
    }

    /// What the warp finds at a position on the way of a row.
    pub open spec fn found_at(self, m: Seq<u8>, w: Warp, l: Lane, x: i32, y: i32) -> u32 {
        self.warp_sample(m, w, l.xd, l.yd, x, y, 0).value
    }

    /// What the warp finds for pixel `n` of row `i` of the rectangle.
    pub open spec fn warped_at(self, m: Seq<u8>, w: Warp, i: int, n: int) -> u32 {
        let l = self.lane(w, i);
        self.found_at(m, w, l, l.x_at(n), l.y_at(n))
    }

    /// The source form can be read, and is apart from the rows that the warp
    /// writes. So are the tables of the color map, and the words that stand for
    /// source pixels.
    pub open spec fn warp_apart(self, size: nat, w: Warp) -> bool {
        &&& forall|x: int, y: int|
            0 <= x < self.sourceWidth && 0 <= y < self.sourceHeight ==> 0
                <= #[trigger] self.warp_addr(x, y) && self.warp_addr(x, y) + 4 <= size
                && self.aside(self.warp_addr(x, y), 4)
        &&& if w.smoothing == 1 {
            self.map_aside(size)
        } else {
            &&& self.tables_aside(size, self.cmFlags)
            &&& self.sourceDepth < 16 ==> {
                let n = 4 * (width_mask(self.sourceDepth as int) + 1);
                0 <= w.map && w.map + n <= size && self.aside(w.map, n)
            }
        }
    }

    // ---- Samples ----------------------------------------------------------

    /// A source pixel is as it was while the warp is under way.
    proof fn lemma_pixel_stays(
        self,
        m: Seq<u8>,
        now: Seq<u8>,
        w: Warp,
        i: int,
        k: int,
        ws: spec_fn(int, int) -> u32,
        x: int,
        y: int,
    )
        requires
            self.dest_form(m.len()),
            self.warp_apart(m.len(), w),
            self.dest_grid(false).done(m, now, i, k, ws),
        ensures
            self.warp_pixel(now, x, y) == self.warp_pixel(m, x, y),
            self.warp_pixel(m, x, y) <= width_mask(self.sourceDepth as int),
    {
        if self.warp_inside(x, y) {
            let f = self.warp_addr(x / 0x4000, y / 0x4000);
            self.lemma_word_outside(m, now, i, k, ws, f);
            crate::bitblt::rules::lemma_masked(
                shr_word(word_at(m, f), self.warp_bit((x / 0x4000) % self.warp_per_word())),
                width_mask(self.sourceDepth as int),
            );
        }
    }

    /// The sums over a row of a square do not depend on what the warp has written,
    /// nor on the bit position.
    proof fn lemma_sum_row_stays(
        self,
        m: Seq<u8>,
        now: Seq<u8>,
        w: Warp,
        i: int,
        k: int,
        ws: spec_fn(int, int) -> u32,
        sq: Square,
        p: Sums,
        q: Sums,
        x: int,
        y: int,
        n: int,
    )
        requires
            self.dest_form(m.len()),
            self.warp_apart(m.len(), w),
            w.smoothing != 1,
            sq.map == w.map,
            self.dest_grid(false).done(m, now, i, k, ws),
            same_sums(p, q),
        ensures
            same_sums(self.sum_row(now, sq, p, x, y, n), self.sum_row(m, sq, q, x, y, n)),
        decreases n,
    {
        if n > 0 {
            self.lemma_sum_row_stays(m, now, w, i, k, ws, sq, p, q, x, y, n - 1);
            let (px, py) = (x + (n - 1) * sq.xh, y + (n - 1) * sq.yh);
            self.lemma_pixel_stays(m, now, w, i, k, ws, px, py);
            let pixel = self.warp_pixel(m, px, py);
            if self.sourceDepth < 16 {
                self.lemma_word_outside(m, now, i, k, ws, sq.map + 4 * pixel);
            }
            assert(self.true_color(now, sq.map, pixel) == self.true_color(m, sq.map, pixel));
        }
    }

    proof fn lemma_sum_rows_stays(
        self,
        m: Seq<u8>,
        now: Seq<u8>,
        w: Warp,
        i: int,
        k: int,
        ws: spec_fn(int, int) -> u32,
        sq: Square,
        x: int,
        y: int,
        s: sqInt,
        j: int,
    )
        requires
            self.dest_form(m.len()),
            self.warp_apart(m.len(), w),
            w.smoothing != 1,
            sq.map == w.map,
            self.dest_grid(false).done(m, now, i, k, ws),
        ensures
            same_sums(self.sum_rows(now, sq, x, y, s, j), self.sum_rows(m, sq, x, y, 0, j)),
        decreases j,
    {
        if j > 0 {
            self.lemma_sum_rows_stays(m, now, w, i, k, ws, sq, x, y, s, j - 1);
            self.lemma_sum_row_stays(
                m,
                now,
                w,
                i,
                k,
                ws,
                sq,
                self.sum_rows(now, sq, x, y, s, j - 1),
                self.sum_rows(m, sq, x, y, 0, j - 1),
                x + (j - 1) * sq.xv,
                y + (j - 1) * sq.yv,
                sq.side,
            );
        }
    }

    /// What the warp finds at a position does not depend on what it has written.
    proof fn lemma_found_stays(
        self,
        m: Seq<u8>,
        now: Seq<u8>,
        w: Warp,
        l: Lane,
        i: int,
        k: int,
        ws: spec_fn(int, int) -> u32,
        x: i32,
        y: i32,
        s: sqInt,
    )
        requires
            self.dest_form(m.len()),
            self.warp_apart(m.len(), w),
            self.dest_grid(false).done(m, now, i, k, ws),
        ensures
            self.warp_sample(now, w, l.xd, l.yd, x, y, s).value == self.found_at(m, w, l, x, y),
    {
        if w.smoothing == 1 {
            self.lemma_pixel_stays(m, now, w, i, k, ws, x as int, y as int);
            let pixel = self.warp_pixel(m, x as int, y as int) as sqInt;
            self.lemma_map_stays(m, now, i, k, ws, pixel, self.mapper_flags());
        } else {
            let sq = BitBlt::square(
                w.smoothing,
                w.map,
                l.xd as int,
                l.yd as int,
                w.step.ax,
                w.step.ay,
            );
            self.lemma_sum_rows_stays(m, now, w, i, k, ws, sq, x as int, y as int, s, sq.side);
            let q = self.sum_rows(m, sq, x as int, y as int, 0, sq.side);
            let color = (q.a / q.n) * 0x100_0000 + (q.r / q.n) * 0x1_0000 + (q.g / q.n) * 0x100
                + q.b / q.n;
            self.lemma_map_stays(m, now, i, k, ws, color as sqInt, self.cmFlags);
        }
    }

    // ---- Words ------------------------------------------------------------

    /// The first `n` pixels of word `k` of row `i`, packed.
    pub open spec fn packed(self, m: Seq<u8>, w: Warp, i: int, k: int, n: int) -> u32
        decreases n,
    {
        if n <= 0 {
            0
        } else {
            self.packed(m, w, i, k, n - 1) | shl_word(
                self.warped_at(m, w, i, self.pix_before(k) + n - 1) & width_mask(
                    self.destDepth as int,
                ),
                self.pix_bit(k) + (n - 1) * self.dest_inc(),
            )
        }
    }

    /// A walk over the pixels of a word packs what the warp finds for them.
    proof fn lemma_walked(
        self,
        m: Seq<u8>,
        q: WarpStrip,
        w: Warp,
        i: int,
        k: int,
        ws: spec_fn(int, int) -> u32,
        n: int,
    )
        requires
            self.dest_form(m.len()),
            self.warp_apart(m.len(), w),
            self.dest_grid(false).done(m, q.mem, i, k, ws),
            q.sx == self.lane(w, i).x_at(self.pix_before(k)),
            q.sy == self.lane(w, i).y_at(self.pix_before(k)),
            0 <= self.pix_before(k),
            0 <= n,
        ensures
            ({
                let l = self.lane(w, i);
                let walk = walked(
                    |x: i32, y: i32, s: sqInt| self.warp_sample(q.mem, w, l.xd, l.yd, x, y, s),
                    Walk { word: 0, sx: q.sx, sy: q.sy, shift: q.shift },
                    l.xd,
                    l.yd,
                    width_mask(self.destDepth as int),
                    self.pix_bit(k),
                    self.dest_inc(),
                    n,
                );
                &&& walk.word == self.packed(m, w, i, k, n)
                &&& walk.sx == l.x_at(self.pix_before(k) + n)
                &&& walk.sy == l.y_at(self.pix_before(k) + n)
            }),
        decreases n,
    {
        if n > 0 {
            self.lemma_walked(m, q, w, i, k, ws, n - 1);
            let l = self.lane(w, i);
            let f = |x: i32, y: i32, s: sqInt| self.warp_sample(q.mem, w, l.xd, l.yd, x, y, s);
            let walk = walked(
                f,
                Walk { word: 0, sx: q.sx, sy: q.sy, shift: q.shift },
                l.xd,
                l.yd,
                width_mask(self.destDepth as int),
                self.pix_bit(k),
                self.dest_inc(),
                n - 1,
            );
            self.lemma_found_stays(m, q.mem, w, l, i, k, ws, walk.sx, walk.sy, walk.shift);
            assert(f(walk.sx, walk.sy, walk.shift).value == self.warped_at(
                m,
                w,
                i,
                self.pix_before(k) + n - 1,
            ));
        }
    }

    /// The bits of the packed word are those of the pixels.
    proof fn lemma_packed_bits(self, m: Seq<u8>, w: Warp, i: int, k: int, n: int, t: int)
        requires
            self.with_dest_masks() == self,
            self.dest_form(m.len()),
            0 <= k < self.dest_grid(false).words,
            0 <= n <= self.pix_count(k),
            0 <= t < 32,
        ensures
            ({
                let d = self.destDepth as int;
                let p = t / d - self.start_place(k);
                stream_bit(self.destMSB != 0, self.packed(m, w, i, k, n), t) == (0 <= p < n
                    && word_bit(
                    self.warped_at(m, w, i, self.pix_before(k) + p),
                    self.pixel_place_bit(t % d),
                ))
            }),
        decreases n,
    {
        let msb = self.destMSB != 0;
        let d = self.destDepth as int;
        lemma_stream_bits(msb, 0, 0, t);
        if n > 0 {
            self.lemma_packed_bits(m, w, i, k, n - 1, t);
            self.lemma_places(m.len(), k);
            self.lemma_pixel_place(self.dx as int);
            let v = self.warped_at(m, w, i, self.pix_before(k) + n - 1);
            let place = self.start_place(k) + n - 1;
            let c = self.pix_bit(k) + (n - 1) * self.dest_inc();
            assert(c == self.dest_bit(place)) by (nonlinear_arith)
                requires
                    self.pix_bit(k) == self.dest_bit(self.start_place(k)),
                    place == self.start_place(k) + n - 1,
                    c == self.pix_bit(k) + (n - 1) * self.dest_inc(),
                    self.dest_inc() == (if self.destMSB != 0 {
                        -d
                    } else {
                        d
                    }),
                    self.dest_bit(place) == (if self.destMSB != 0 {
                        32 - d - place * d
                    } else {
                        place * d
                    }),
                    self.dest_bit(self.start_place(k)) == (if self.destMSB != 0 {
                        32 - d - self.start_place(k) * d
                    } else {
                        self.start_place(k) * d
                    }),
            ;
            assert(0 <= place * d && place * d + d <= 32) by (nonlinear_arith)
                requires
                    0 <= place,
                    place + 1 <= self.destPPW,
                    self.destPPW * d == 32,
                    1 <= d,
            ;
            let term = shl_word(v & width_mask(d), c);
            lemma_stream_bits(msb, self.packed(m, w, i, k, n - 1), term, t);
            self.lemma_term_bit(v, place, t);
        }
    }

    // ---- The loop ---------------------------------------------------------

    /// The source words of a warp.
    pub open spec fn warp_source(self, m: Seq<u8>, w: Warp) -> spec_fn(int, int) -> u32 {
        |i: int, k: int|
            self.packed(m, w, i, k, self.pix_count(k)) & self.halftone_at(m, self.dy + i)
    }

    proof fn lemma_warp_words_done(
        self,
        m: Seq<u8>,
        w: Warp,
        q: WarpStrip,
        h: u32,
        i: int,
        k: int,
    )
        requires
            self.with_dest_masks() == self,
            self.dest_form(m.len()),
            self.warp_apart(m.len(), w),
            self.word_by_word(),
            0 <= i < self.bbH,
            0 <= k <= self.dest_grid(false).words,
            h == self.halftone_at(m, self.dy + i),
            q.sx == self.lane(w, i).x,
            q.sy == self.lane(w, i).y,
            self.dest_grid(false).done(
                m,
                q.mem,
                i,
                0,
                self.ruled_words(m, self.dest_grid(false), self.warp_source(m, w)),
            ),
        ensures
            ({
                let l = self.lane(w, i);
                let after = self.warp_words(w, l.xd, l.yd, h, q, i, k);
                &&& after.sx == l.x_at(self.pix_before(k))
                &&& after.sy == l.y_at(self.pix_before(k))
                &&& self.dest_grid(false).done(
                    m,
                    after.mem,
                    i,
                    k,
                    self.ruled_words(m, self.dest_grid(false), self.warp_source(m, w)),
                )
            }),
        decreases k,
    {
        let g = self.dest_grid(false);
        let ws = self.ruled_words(m, g, self.warp_source(m, w));
        let l = self.lane(w, i);
        if k > 0 {
            self.lemma_warp_words_done(m, w, q, h, i, k - 1);
            self.lemma_dest_grid(m.len(), false);
            self.lemma_forward_grid(m.len(), i);
            self.lemma_row_words();
            self.lemma_places(m.len(), k - 1);
            let r = self.warp_words(w, l.xd, l.yd, h, q, i, k - 1);
            let n = self.pix_count(k - 1);
            self.lemma_walked(m, r, w, i, k - 1, ws, n);
            let v = self.packed(m, w, i, k - 1, n);
            assert(self.warp_walk(w, l.xd, l.yd, r, k - 1).word == v);
            assert(self.forward_word(i, k - 1) == g.addr(i, k - 1));
            g.lemma_own_word(m, r.mem, i, k - 1, ws);
            self.lemma_whole_masks(k - 1);
            self.lemma_stores_ruled(
                self.word_mask(k - 1),
                Picture { mem: r.mem, count: r.count },
                g.addr(i, k - 1),
                v & h,
            );
            g.lemma_step(m, r.mem, i, k - 1, ws);
        }
    }

    proof fn lemma_warp_rows_done(self, m: Seq<u8>, w: Warp, q: WarpStrip, i: int)
        requires
            self.with_dest_masks() == self,
            self.dest_form(m.len()),
            self.warp_apart(m.len(), w),
            self.halftone_apart(m.len()),
            self.word_by_word(),
            q.mem == m,
            0 <= i <= self.bbH,
        ensures
            self.dest_grid(false).done(
                m,
                self.warp_rows(w, q, i).mem,
                i,
                0,
                self.ruled_words(m, self.dest_grid(false), self.warp_source(m, w)),
            ),
        decreases i,
    {
        let g = self.dest_grid(false);
        let ws = self.ruled_words(m, g, self.warp_source(m, w));
        if i == 0 {
            g.lemma_begin(m, ws);
        } else {
            self.lemma_warp_rows_done(m, w, q, i - 1);
            let r = self.warp_rows(w, q, i - 1);
            let h = self.halftone_at(r.mem, self.dy + i - 1);
            if !self.noHalftone {
                let n = (self.dy + i - 1) % self.halftoneHeight as int;
                crate::bitblt::engine::lemma_remainder(
                    self.dy + i - 1,
                    self.halftoneHeight as int,
                );
                self.lemma_halftone_stays(m, r.mem, false, i - 1, ws, n);
            }
            assert(h == self.halftone_at(m, self.dy + i - 1));
            self.lemma_forward_grid(m.len(), i - 1);
            let l = self.lane(w, i - 1);
            let start = WarpStrip { sx: l.x, sy: l.y, ..r };
            self.lemma_warp_words_done(m, w, start, h, i - 1, g.words);
            let row = self.warp_words(w, l.xd, l.yd, h, start, i - 1, g.words);
            g.lemma_turn(m, row.mem, i - 1, ws);
        }
    }

    /// A warp combines every pixel of its rectangle with what it finds at the
    /// pixel's place in the source. Every other bit of the form stays, and so does
    /// the memory outside the rows of the warp.
    pub proof fn lemma_warp(self, m: Seq<u8>, w: Warp, y: int, b: int, a: int)
        requires
            self.with_dest_masks() == self,
            0 <= self.combinationRule <= 15,
            self.dest_form(m.len()),
            self.warp_apart(m.len(), w),
            self.halftone_apart(m.len()),
            0 <= b < 8 * self.destPitch,
            0 <= self.dest_row(y),
            self.dest_row(y) + self.destPitch <= m.len(),
            0 <= a < m.len(),
        ensures
            ({
                let after = self.warp_rows(w, self.warp_begin(m), self.bbH as int).mem;
                let msb = self.destMSB != 0;
                let before = row_bit(m, msb, self.dest_row(y), b);
                &&& row_bit(after, msb, self.dest_row(y), b) == (if self.covers(y, b) {
                    rule_bit(
                        self.combinationRule as int,
                        word_bit(
                            self.warped_at(
                                m,
                                w,
                                y - self.dy,
                                b / (self.destDepth as int) - self.dx,
                            ),
                            self.pixel_place_bit(b % (self.destDepth as int)),
                        ) && stream_bit(msb, self.halftone_at(m, y), b % 32),
                        before,
                    )
                } else {
                    before
                })
                &&& !(self.dest_row(self.dy as int) <= a < self.dest_row(self.dy + self.bbH))
                    ==> after[a] == m[a]
            }),
    {
        let q = self.warp_begin(m);
        self.lemma_warp_rows_done(m, w, q, self.bbH as int);
        let after = self.warp_rows(w, q, self.bbH as int).mem;
        self.lemma_by_bits(m, after, false, self.warp_source(m, w), y, b);
        if self.covers(y, b) {
            self.lemma_warp_source_bits(m, w, y, b);
        }
        if !(self.dest_row(self.dy as int) <= a < self.dest_row(self.dy + self.bbH)) {
            self.lemma_rows_only(
                m,
                after,
                false,
                self.bbH as int,
                0,
                self.ruled_words(m, self.dest_grid(false), self.warp_source(m, w)),
                a,
            );
        }
    }

    /// The bits of the words that a warp merges are those of the pixels it finds.
    proof fn lemma_warp_source_bits(self, m: Seq<u8>, w: Warp, y: int, b: int)
        requires
            self.with_dest_masks() == self,
            self.dest_form(m.len()),
            self.covers(y, b),
        ensures
            stream_bit(
                self.destMSB != 0,
                (self.warp_source(m, w))(y - self.dy, b / 32 - self.first_word()),
                b % 32,
            ) == (word_bit(
                self.warped_at(m, w, y - self.dy, b / (self.destDepth as int) - self.dx),
                self.pixel_place_bit(b % (self.destDepth as int)),
            ) && stream_bit(self.destMSB != 0, self.halftone_at(m, y), b % 32)),
    {
        let k = b / 32 - self.first_word();
        let t = b % 32;
        self.lemma_bit_of_pixel(m.len(), y, b);
        let n = self.pix_count(k);
        self.lemma_packed_bits(m, w, y - self.dy, k, n, t);
        lemma_stream_bits(
            self.destMSB != 0,
            self.packed(m, w, y - self.dy, k, n),
            self.halftone_at(m, y),
            t,
        );
    }
}

// ---- Whole warps ----------------------------------------------------------

impl BitBlt {
    /// The registers that the loop of a warp runs with.
    pub open spec fn warp_registers(self, smoothing: int) -> BitBlt {
        self.warp_clipped().begun().with_dest_masks().warp_prepared(smoothing)
    }

    /// A warp with proper arguments is clipped and then goes through the loop.
    /// Clipping and setting up leave the registers as the loop needs them.
    pub proof fn lemma_plain_warp(
        self,
        m: Seq<u8>,
        c: WarpCorners,
        a: WarpArgs,
        n: sqInt,
        map: UsqInt,
    )
        requires
            !self.noSource,
            !self.warp_clipped().is_empty_blit(),
            self.smoothing_args(a) == Some((n, map)),
        ensures
            ({
                let r = self.warp_registers(n as int);
                let (done, ok) = self.warped_bits(m, Some(c), a);
                &&& ok
                &&& done.mem == r.warp_rows(
                    r.warp_between(c, n as int, map as int),
                    r.warp_begin(m),
                    r.bbH as int,
                ).mem
                &&& r.with_dest_masks() == r
            }),
    {
        let set = self.warp_clipped().begun().with_dest_masks();
        let r = set.warp_prepared(n as int);
        assert(set.smoothing_args(a) == self.smoothing_args(a));
        assert(r.warp_between(c, n as int, map as int) == set.warp_between(
            c,
            n as int,
            map as int,
        ));
        assert(r.with_dest_masks() == r);
    }

    /// Within its forms, a warp can be carried out.
    pub proof fn lemma_warp_runs(self, size: nat, w: Warp)
        requires
            self.with_dest_masks() == self,
            self.warp_ready(),
            self.dest_form(size),
            self.warp_apart(size, w),
            self.merge_ok(size),
            self.halftone_ok(size),
            self.counts_fit(),
            1 <= self.bbH,
        ensures
            self.warp_ok(size, w),
    {
        let g = self.dest_grid(false);
        self.lemma_row_words();
        self.lemma_dest_grid(size, false);
        assert forall|i: int, k: int|
            0 <= i < self.bbH && 0 <= k < self.row_words() implies 0 <= #[trigger] self.forward_word(
            i,
            k,
        ) && self.forward_word(i, k) + 4 <= size by {
            self.lemma_forward_grid(size, i);
            assert(g.has(i, k));
            assert(g.addr(i, k) == g.addr(i, 0) + 4 * k);
        }
        assert(self.forward_rows_ok(size));
        assert(self.row_words() == g.words);
    }

    /// The corners of a rectangle of the source, as a warp of its own size takes
    /// them.
    pub open spec fn frames(self, c: WarpCorners, x: int, y: int) -> bool {
        let right = x + self.width - 1;
        let bottom = y + self.height - 1;
        &&& c.p1x == x * FIXED_PT1 && c.p1y == y * FIXED_PT1
        &&& c.p2x == x * FIXED_PT1 && c.p2y == bottom * FIXED_PT1
        &&& c.p3x == right * FIXED_PT1 && c.p3y == bottom * FIXED_PT1
        &&& c.p4x == right * FIXED_PT1 && c.p4y == y * FIXED_PT1
    }

    /// A warp of a rectangle onto one of the same size moves every pixel to its
    /// own place, in rectangles of up to 16384 pixels along a side: the places
    /// round up by less than a pixel.
    pub proof fn lemma_own_places(self, c: WarpCorners, w: Warp, x: int, y: int, i: int, n: int)
        requires
            self.frames(c, x, y),
            w == self.warp_between(c, w.smoothing, w.map),
            0 <= x,
            0 <= y,
            0 <= i,
            0 <= n,
            self.columns_skipped() + n < self.width,
            self.rows_skipped() + i < self.height,
            self.columns_skipped() + n < 0x4000,
            self.rows_skipped() + i < 0x4000,
            (x + self.width) * 0x4001 <= i32::MAX,
            (y + self.height) * 0x4001 <= i32::MAX,
        ensures
            self.lane(w, i).x_at(n) as int / 0x4000 == x + self.columns_skipped() + n,
            self.lane(w, i).y_at(n) as int / 0x4000 == y + self.rows_skipped() + i,
    {
        let (cw, ch) = (self.width as int, self.height as int);
        let skip = self.columns_skipped();
        let rows = self.rows_skipped();
        lemma_side(x, cw);
        lemma_side(y, ch);
        let dx = warp_delta(x * 0x4000, (x + cw - 1) * 0x4000, self.warp_steps());
        let dy = warp_delta(y * 0x4000, (y + ch - 1) * 0x4000, self.warp_rises());
        assert(warp_delta(x * 0x4000, x * 0x4000, self.warp_rises()) == 0);
        assert((x + cw - 1) * 0x4000 == c.p4x);
        let ends = self.row_quad(w, i);
        let l = self.lane(w, i);
        assert(rows * 0 == 0 && i * 0 == 0);
        assert(ends.ax == x * 0x4000);
        assert(ends.bx == (x + cw - 1) * 0x4000);
        assert(rows * dy + i * dy == (rows + i) * dy) by (nonlinear_arith);
        assert(ends.ay == y * 0x4000 + (rows + i) * dy);
        assert(ends.by == ends.ay);
        assert(l.xd == dx && l.yd == 0);
        assert(0 <= (rows + i) * dy && (rows + i) * dy <= (ch - 1) * 0x4001 && 0 <= skip * dx && skip
            * dx + n * dx == (skip + n) * dx && (skip + n) * dx <= (cw - 1) * 0x4001 && skip * dx
            <= (skip + n) * dx) by (nonlinear_arith)
            requires
                0 <= rows,
                0 <= i,
                rows + i < ch,
                0 <= skip,
                0 <= n,
                skip + n < cw,
                dx == 0x4001 || (dx == 0 && cw == 1),
                dy == 0x4001 || (dy == 0 && ch == 1),
        ;
        assert(l.x == x * 0x4000 + skip * dx);
        assert(l.y == ends.ay) by {
            assert(skip * 0 == 0);
        }
        lemma_walk_straight(l.x, l.xd, n);
        assert(n * 0 == 0);
        lemma_walk_straight(l.y, l.yd, n);
        lemma_whole(x, skip + n, dx, cw);
        lemma_whole(y, rows + i, dy, ch);
    }

    /// The source pixel at a place on the way of a row, for the depths that
    /// divide a word.
    pub(crate) proof fn lemma_warp_pixel(self, m: Seq<u8>, xx: int, yy: int)
        requires
            self.sourceDepth == 1 || self.sourceDepth == 2 || self.sourceDepth == 4
                || self.sourceDepth == 8 || self.sourceDepth == 16 || self.sourceDepth == 32,
            self.warp_inside(xx, yy),
        ensures
            self.warp_pixel(m, xx, yy) == self.source_pixel(m, xx / 0x4000, yy / 0x4000),
    {
        let x = xx / 0x4000;
        let p = x % self.warp_per_word();
        assert(self.warp_field() == self.sourceDepth);
        assert(self.warp_per_word() == self.source_ppw());
        assert((p + 1) * self.sourceDepth == p * self.sourceDepth + self.sourceDepth)
            by (nonlinear_arith);
    }

    /// A warp of a rectangle onto one of the same size, without smoothing, finds
    /// the source pixel that belongs to each pixel, taken through the color map.
    pub proof fn lemma_identity_warp(
        self,
        m: Seq<u8>,
        c: WarpCorners,
        w: Warp,
        x: int,
        y: int,
        i: int,
        n: int,
    )
        requires
            self.frames(c, x, y),
            w == self.warp_between(c, w.smoothing, w.map),
            w.smoothing == 1,
            self.sourceDepth == 1 || self.sourceDepth == 2 || self.sourceDepth == 4
                || self.sourceDepth == 8 || self.sourceDepth == 16 || self.sourceDepth == 32,
            0 <= x,
            0 <= y,
            x + self.width <= self.sourceWidth,
            y + self.height <= self.sourceHeight,
            0 <= i,
            0 <= n,
            self.columns_skipped() + n < self.width,
            self.rows_skipped() + i < self.height,
            self.columns_skipped() + n < 0x4000,
            self.rows_skipped() + i < 0x4000,
            (x + self.width) * 0x4001 <= i32::MAX,
            (y + self.height) * 0x4001 <= i32::MAX,
        ensures
            self.warped_at(m, w, i, n) == self.map_pixel(
                m,
                self.source_pixel(
                    m,
                    x + self.columns_skipped() + n,
                    y + self.rows_skipped() + i,
                ) as sqInt,
                self.mapper_flags(),
            ) as u32,
    {
        self.lemma_own_places(c, w, x, y, i, n);
        let l = self.lane(w, i);
        self.lemma_warp_pixel(m, l.x_at(n) as int, l.y_at(n) as int);
    }
}

/// The step along a side of `n` pixels is a pixel and the smallest fraction of
/// one.
pub(crate) proof fn lemma_side(x: int, n: int)
    requires
        1 <= n,
    ensures
        ({
            let steps = if n - 1 <= 0 {
                1
            } else {
                n - 1
            };
            let d = warp_delta(x * 0x4000, (x + n - 1) * 0x4000, steps);
            if n == 1 {
                d == 0
            } else {
                d == 0x4001
            }
        }),
{
    if n > 1 {
        assert((x + n - 1) * 0x4000 - x * 0x4000 + 0x4000 == n * 0x4000);
        vstd::arithmetic::div_mod::lemma_div_multiples_vanish(0x4000, n);
        assert((n * 0x4000) / n == 0x4000);
    }
}

/// A place that is less than a pixel past a whole one.
pub(crate) proof fn lemma_whole(x: int, k: int, d: int, n: int)
    requires
        0 <= x,
        0 <= k < n,
        k < 0x4000,
        d == 0x4001 || (d == 0 && n == 1),
    ensures
        (x * 0x4000 + k * d) / 0x4000 == x + k,
{
    if d == 0 {
        assert(k * d == 0) by (nonlinear_arith)
            requires
                d == 0,
        ;
    }
}

} // verus!
