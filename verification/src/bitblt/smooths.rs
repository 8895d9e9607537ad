//! What smoothing finds: the average over a square of source pixels.
use vstd::prelude::*;
use crate::prim::sqInt;
use crate::bitblt::alphas::{byte_of, lemma_channel_bytes};
use crate::bitblt::color::lemma_channels;
use crate::bitblt::colors::{lemma_widened_color, recolored};
use crate::bitblt::memory::word_at;
use crate::bitblt::setup::quotient;
use crate::bitblt::state::BitBlt;
use crate::bitblt::warp::{Square, Sums};
use crate::bitblt::warploop::Warp;
use crate::bitblt::warps::Lane;

verus! {

impl BitBlt {
    /// The 32-bit color of source pixel `k` of row `j` of the square at `x`, `y`;
    /// nothing where the pixel does not count: rule 25 leaves zero pixels out. The
    /// steps of the walk are shared out over the side of the square.
    pub open spec fn smooth_color(self, m: Seq<u8>, w: Warp, l: Lane, x: int, y: int, j: int, k: int)
        -> Option<int> {
        let n = w.smoothing;
        let pixel = self.warp_pixel(
            m,
            x + j * quotient(w.step.ax, n) + k * quotient(l.xd as int, n),
            y + j * quotient(w.step.ay, n) + k * quotient(l.yd as int, n),
        );
        if self.combinationRule == 25 && pixel == 0 {
            None
        } else if self.sourceDepth < 16 {
            Some(word_at(m, w.map + 4 * pixel) as int)
        } else if self.sourceDepth == 16 {
            Some(recolored(pixel as int, 32, 256))
        } else {
            Some(pixel as int)
        }
    }

    /// What such a pixel adds to a sum: its byte with a weight, or with weight 0
    /// one for each pixel that counts.
    pub open spec fn smooth_part(
        self,
        m: Seq<u8>,
        w: Warp,
        l: Lane,
        x: int,
        y: int,
        j: int,
        k: int,
        weight: int,
    ) -> int {
        match self.smooth_color(m, w, l, x, y, j, k) {
            None => 0,
            Some(c) => if weight == 0 {
                1
            } else {
                (c / weight) % 256
            },
        }
    }

    /// The sum over the first `k` pixels of row `j` of the square.
    pub open spec fn smooth_row(
        self,
        m: Seq<u8>,
        w: Warp,
        l: Lane,
        x: int,
        y: int,
        j: int,
        k: int,
        weight: int,
    ) -> int
        decreases k,
    {
        if k <= 0 {
            0
        } else {
            self.smooth_row(m, w, l, x, y, j, k - 1, weight) + self.smooth_part(
                m,
                w,
                l,
                x,
                y,
                j,
                k - 1,
                weight,
            )
        }
    }

    /// The sum over the first `j` rows of the square.
    pub open spec fn smooth_sum(
        self,
        m: Seq<u8>,
        w: Warp,
        l: Lane,
        x: int,
        y: int,
        j: int,
        weight: int,
    ) -> int
        decreases j,
    {
        if j <= 0 {
            0
        } else {
            self.smooth_sum(m, w, l, x, y, j - 1, weight) + self.smooth_row(
                m,
                w,
                l,
                x,
                y,
                j - 1,
                w.smoothing,
                weight,
            )
        }
    }

    spec fn sums_more(self, p: Sums, q: Sums, a: int, r: int, g: int, b: int, n: int) -> bool {
        &&& q.a == p.a + a
        &&& q.r == p.r + r
        &&& q.g == p.g + g
        &&& q.b == p.b + b
        &&& q.n == p.n + n
    }

    spec fn smooth_square(w: Warp, l: Lane) -> Square {
        BitBlt::square(w.smoothing, w.map, l.xd as int, l.yd as int, w.step.ax, w.step.ay)
    }

    proof fn lemma_smooth_row(
        self,
        m: Seq<u8>,
        w: Warp,
        l: Lane,
        p: Sums,
        x: int,
        y: int,
        j: int,
        k: int,
    )
        requires
            1 <= self.sourceDepth < 16 || self.sourceDepth == 16 || self.sourceDepth == 32,
        ensures
            ({
                let sq = Self::smooth_square(w, l);
                self.sums_more(
                    p,
                    self.sum_row(m, sq, p, x + j * sq.xv, y + j * sq.yv, k),
                    self.smooth_row(m, w, l, x, y, j, k, 0x100_0000),
                    self.smooth_row(m, w, l, x, y, j, k, 0x1_0000),
                    self.smooth_row(m, w, l, x, y, j, k, 0x100),
                    self.smooth_row(m, w, l, x, y, j, k, 1),
                    self.smooth_row(m, w, l, x, y, j, k, 0),
                )
            }),
        decreases k,
    {
        if k > 0 {
            self.lemma_smooth_row(m, w, l, p, x, y, j, k - 1);
            let sq = Self::smooth_square(w, l);
            let pixel = self.warp_pixel(
                m,
                x + j * sq.xv + (k - 1) * sq.xh,
                y + j * sq.yv + (k - 1) * sq.yh,
            );
            let c = self.true_color(m, w.map, pixel);
            lemma_widened_color(pixel);
            lemma_channel_bytes(c);
            lemma_channels(c);
        }
    }

    proof fn lemma_smooth_sum(self, m: Seq<u8>, w: Warp, l: Lane, x: int, y: int, s: sqInt, j: int)
        requires
            1 <= self.sourceDepth < 16 || self.sourceDepth == 16 || self.sourceDepth == 32,
        ensures
            self.sums_more(
                Sums { a: 0, r: 0, g: 0, b: 0, n: 0, shift: s },
                self.sum_rows(m, Self::smooth_square(w, l), x, y, s, j),
                self.smooth_sum(m, w, l, x, y, j, 0x100_0000),
                self.smooth_sum(m, w, l, x, y, j, 0x1_0000),
                self.smooth_sum(m, w, l, x, y, j, 0x100),
                self.smooth_sum(m, w, l, x, y, j, 1),
                self.smooth_sum(m, w, l, x, y, j, 0),
            ),
        decreases j,
    {
        if j > 0 {
            self.lemma_smooth_sum(m, w, l, x, y, s, j - 1);
            let sq = Self::smooth_square(w, l);
            self.lemma_smooth_row(
                m,
                w,
                l,
                self.sum_rows(m, sq, x, y, s, j - 1),
                x,
                y,
                j - 1,
                w.smoothing,
            );
        }
    }

    /// With smoothing, a warp finds at a position the mean color of a square of
    /// source pixels, byte by byte and rounded down, taken through the color map.
    /// It finds 0 where no pixel counts, and under rule 25 where less than half of
    /// the square does.
    pub proof fn lemma_smoothed(self, m: Seq<u8>, w: Warp, l: Lane, x: i32, y: i32)
        requires
            w.smoothing > 1,
            1 <= self.sourceDepth < 16 || self.sourceDepth == 16 || self.sourceDepth == 32,
        ensures
            ({
                let n = w.smoothing;
                let count = self.smooth_sum(m, w, l, x as int, y as int, n, 0);
                let mean = |weight: int|
                    self.smooth_sum(m, w, l, x as int, y as int, n, weight) / count;
                let color = mean(0x100_0000) * 0x100_0000 + mean(0x1_0000) * 0x1_0000 + mean(0x100)
                    * 0x100 + mean(1);
                self.found_at(m, w, l, x, y) == if count == 0 || (self.combinationRule == 25 && count
                    < n * n / 2) {
                    0
                } else {
                    self.map_pixel(m, color as sqInt, self.cmFlags) as u32
                }
            }),
    {
        self.lemma_smooth_sum(m, w, l, x as int, y as int, 0, w.smoothing);
    }

    /// Where every pixel of the square has one color, smoothing finds that color.
    pub proof fn lemma_smooth_evenly(self, m: Seq<u8>, w: Warp, l: Lane, x: i32, y: i32, c: u32)
        requires
            w.smoothing > 1,
            1 <= self.sourceDepth < 16 || self.sourceDepth == 16 || self.sourceDepth == 32,
            forall|j: int, k: int|
                0 <= j < w.smoothing && 0 <= k < w.smoothing ==> #[trigger] self.smooth_color(
                    m,
                    w,
                    l,
                    x as int,
                    y as int,
                    j,
                    k,
                ) == Some(c as int),
        ensures
            self.found_at(m, w, l, x, y) == self.map_pixel(m, c as sqInt, self.cmFlags) as u32,
    {
        let n = w.smoothing;
        self.lemma_smoothed(m, w, l, x, y);
        self.lemma_even_sum(m, w, l, x as int, y as int, c, n, 0);
        self.lemma_even_sum(m, w, l, x as int, y as int, c, n, 1);
        self.lemma_even_sum(m, w, l, x as int, y as int, c, n, 0x100);
        self.lemma_even_sum(m, w, l, x as int, y as int, c, n, 0x1_0000);
        self.lemma_even_sum(m, w, l, x as int, y as int, c, n, 0x100_0000);
        let count = n * n;
        assert(n * n * 1 == count);
        assert(4 <= count) by (nonlinear_arith)
            requires
                count == n * n,
                2 <= n,
        ;
        lemma_mean(byte_of(c, 1), count);
        lemma_mean(byte_of(c, 0x100), count);
        lemma_mean(byte_of(c, 0x1_0000), count);
        lemma_mean(byte_of(c, 0x100_0000), count);
        lemma_channel_bytes(c);
    }

    proof fn lemma_even_row(
        self,
        m: Seq<u8>,
        w: Warp,
        l: Lane,
        x: int,
        y: int,
        c: u32,
        j: int,
        k: int,
        weight: int,
    )
        requires
            0 <= j < w.smoothing,
            0 <= k <= w.smoothing,
            forall|j: int, k: int|
                0 <= j < w.smoothing && 0 <= k < w.smoothing ==> #[trigger] self.smooth_color(
                    m,
                    w,
                    l,
                    x,
                    y,
                    j,
                    k,
                ) == Some(c as int),
        ensures
            self.smooth_row(m, w, l, x, y, j, k, weight) == k * if weight == 0 {
                1
            } else {
                byte_of(c, weight)
            },
        decreases k,
    {
        let v = if weight == 0 {
            1
        } else {
            byte_of(c, weight)
        };
        if k > 0 {
            self.lemma_even_row(m, w, l, x, y, c, j, k - 1, weight);
            assert(self.smooth_color(m, w, l, x, y, j, k - 1) == Some(c as int));
            assert(k * v == (k - 1) * v + v) by (nonlinear_arith);
        } else {
            assert(0 * v == 0);
        }
    }

    proof fn lemma_even_sum(
        self,
        m: Seq<u8>,
        w: Warp,
        l: Lane,
        x: int,
        y: int,
        c: u32,
        j: int,
        weight: int,
    )
        requires
            0 <= j <= w.smoothing,
            forall|j: int, k: int|
                0 <= j < w.smoothing && 0 <= k < w.smoothing ==> #[trigger] self.smooth_color(
                    m,
                    w,
                    l,
                    x,
                    y,
                    j,
                    k,
                ) == Some(c as int),
        ensures
            self.smooth_sum(m, w, l, x, y, j, weight) == j * w.smoothing * if weight == 0 {
                1
            } else {
                byte_of(c, weight)
            },
        decreases j,
    {
        let v = if weight == 0 {
            1
        } else {
            byte_of(c, weight)
        };
        let n = w.smoothing;
        if j > 0 {
            self.lemma_even_sum(m, w, l, x, y, c, j - 1, weight);
            self.lemma_even_row(m, w, l, x, y, c, j - 1, n, weight);
            assert(j * n * v == (j - 1) * n * v + n * v) by (nonlinear_arith);
        } else {
            assert(0 * n * v == 0) by (nonlinear_arith);
        }
    }
}

proof fn lemma_mean(v: int, count: int)
    requires
        0 < count,
    ensures
        (count * v) / count == v,
{
    vstd::arithmetic::div_mod::lemma_div_multiples_vanish(v, count);
}

} // verus!
