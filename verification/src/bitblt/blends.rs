//! What the short cuts for rules 34 and 41 make of the destination, pixel by
//! pixel: every pixel of the rectangle is blended with the source pixel that
//! belongs there, and every other pixel stays.
use vstd::prelude::*;
use crate::prim::{sqInt, UsqInt};
use crate::bitblt::memory::{with_word, word_at};
use crate::bitblt::state::{width_mask, BitBlt, ALL_ONES};
use crate::bitblt::state::DEFAULT_8_TO_32_TABLE;
use crate::bitblt::rules::{alpha_blend_scaled, channel, dither_pixel, widen16};
use crate::bitblt::color::lemma_channels;
use crate::bitblt::blend::scan;
use crate::bitblt::blit::BlitArgs;
use crate::bitblt::components::field;

verus! {

broadcast use crate::bitblt::memory::group_memory;

/// A word with the `n` bits from bit `at` on set to `v`.
pub open spec fn with_field(w: u32, n: int, at: int, v: u32) -> u32 {
    (w & !(width_mask(n) << (at as u32))) | (v << (at as u32))
}

/// A pixel that is not transparent.
pub open spec fn visible(v: u32) -> u32 {
    if v == 0 {
        1
    } else {
        v
    }
}

impl BitBlt {
    /// Pixel `x` of row `y` of the destination.
    pub open spec fn dest_pixel(self, m: Seq<u8>, x: int, y: int) -> u32 {
        field(
            word_at(m, self.dest_row(y) + 4 * (x / self.destPPW as int)),
            self.destDepth as int,
            self.dest_bit(x % self.destPPW as int),
        )
    }

    /// The destination form has the pixel.
    pub open spec fn in_form(self, size: nat, x: int, y: int) -> bool {
        &&& 0 <= x
        &&& 4 * (x / self.destPPW as int) + 4 <= self.destPitch
        &&& 0 <= self.dest_row(y)
        &&& self.dest_row(y) + self.destPitch <= size
    }

    /// The pixel is within the blit, in its first `j` rows or among the first `i`
    /// pixels of the next.
    pub open spec fn scanned(self, x: int, y: int, j: int, i: int) -> bool {
        &&& self.dx <= x < self.dx + self.bbW
        &&& self.dy <= y < self.dy + self.bbH
        &&& y - self.dy < j || (y - self.dy == j && x - self.dx < i)
    }

    /// The 32-bit color of a destination pixel.
    pub open spec fn dest_color(self, d: u32) -> u32 {
        if self.destDepth == 32 {
            d
        } else if self.destDepth == 16 {
            widen16(d) | 0xFF00_0000
        } else {
            DEFAULT_8_TO_32_TABLE[d as int]
        }
    }

    /// The destination pixel for a 32-bit color: as it is, dithered, or through the
    /// color map.
    pub open spec fn dest_value(self, m: Seq<u8>, j: int, i: int, color: u32) -> u32 {
        if self.destDepth == 32 {
            color
        } else if self.destDepth == 16 {
            visible(dither_pixel(color, self.dither_at(j, i)))
        } else {
            self.map_pixel(m, color as sqInt, self.mapper_flags()) as u32
        }
    }

    /// The source word for pixel `i` of row `j`, adjusted for 8-bit destinations.
    pub open spec fn blend_word(self, m: Seq<u8>, j: int, i: int) -> u32 {
        let s = word_at(m, self.source32_addr(j, i));
        if self.destDepth == 8 {
            self.adjusted(s, j, i)
        } else {
            s
        }
    }

    /// What rule 34 makes of a pixel: nothing where the source is transparent, its
    /// color where it is opaque, and in between the source over the destination.
    pub open spec fn alpha_over(self, m: Seq<u8>, j: int, i: int, d: u32) -> u32 {
        let s = self.blend_word(m, j, i);
        let (none, all): (int, int) = if self.destDepth == 8 {
            (0x1F, 224)
        } else {
            (0, 0xFF)
        };
        if s >> 24 <= none {
            d
        } else if s >> 24 >= all {
            self.dest_value(m, j, i, s)
        } else {
            self.dest_value(m, j, i, alpha_blend_scaled(s, self.dest_color(d)))
        }
    }

    /// What rule 41 makes of a pixel: the blit's color over it, under the mask that
    /// the source is. Where the mask is empty the pixel stays.
    pub open spec fn masked_over(self, m: Seq<u8>, j: int, i: int, d: u32) -> u32 {
        let s = self.blend_word(m, j, i);
        if self.destDepth == 8 {
            if BitBlt::mean_color(s) <= 0x1F {
                d
            } else {
                let mask = if BitBlt::mean_color(s) > 224 {
                    ALL_ONES
                } else {
                    s
                };
                self.dest_value(m, j, i, self.component_alpha(m, mask, self.dest_color(d)))
            }
        } else if s & 0xFFFFFF == 0 {
            d
        } else {
            self.dest_value(m, j, i, self.component_alpha(m, s, self.dest_color(d)))
        }
    }

    /// What the blend makes of pixel `i` of row `j`, which was `d`.
    pub open spec fn blended(self, m: Seq<u8>, j: int, i: int, d: u32) -> u32 {
        if self.combinationRule == 41 {
            self.masked_over(m, j, i, d)
        } else {
            self.alpha_over(m, j, i, d)
        }
    }

    /// The blit is one of the blends. Left out is rule 41 on 8-bit forms with the
    /// leftmost pixel in the low bits, where it counts five pixels to a word.
    pub open spec fn blends_plainly(self) -> bool {
        &&& self.is_quick()
        &&& self.destDepth == 8 || self.destDepth == 16 || self.destDepth == 32
        &&& !(self.combinationRule == 41 && self.destDepth == 8 && self.destMSB == 0)
    }

    /// A gamma table can be read, and is apart from the rows that the blit writes.
    pub open spec fn gamma_aside(self, size: nat, table: UsqInt) -> bool {
        table == 0 || (table + 256 <= size && self.aside(table as int, 256))
    }

    /// What the blend reads can be read, and is apart from the rows that it writes.
    /// A color map for 8-bit forms gives 8-bit pixels.
    pub open spec fn blend_apart(self, m: Seq<u8>) -> bool {
        &&& forall|j: int, i: int|
            0 <= j < self.bbH && 0 <= i < self.bbW ==> 0 <= #[trigger] self.source32_addr(j, i)
                && self.source32_addr(j, i) + 4 <= m.len() && self.aside(
                self.source32_addr(j, i),
                4,
            )
        &&& self.destDepth == 8 ==> {
            &&& self.map_aside(m.len())
            &&& forall|c: u32|
                #![trigger self.map_pixel(m, c as sqInt, self.mapper_flags())]
                self.map_pixel(m, c as sqInt, self.mapper_flags()) as u32 <= 0xFF
        }
        &&& self.combinationRule == 41 ==> self.gamma_aside(m.len(), self.gammaLookupTable)
            && self.gamma_aside(m.len(), self.ungammaLookupTable)
    }

    /// What is known once the first `j` rows and the first `i` pixels of the next
    /// are blended.
    pub open spec fn blended_to(self, m: Seq<u8>, now: Seq<u8>, j: int, i: int) -> bool {
        &&& self.rows_alone(m, now)
        &&& forall|x: int, y: int|
            self.in_form(m.len(), x, y) ==> #[trigger] self.dest_pixel(now, x, y) == (
            if self.scanned(x, y, j, i) {
                self.blended(m, y - self.dy, x - self.dx, self.dest_pixel(m, x, y))
            } else {
                self.dest_pixel(m, x, y)
            })
    }

    // ---- One pixel --------------------------------------------------------

    /// Where pixel `x` of a row is.
    proof fn lemma_pixel_field(self, x: int)
        requires
            self.whole_pixels(),
            self.destDepth == 8 || self.destDepth == 16 || self.destDepth == 32,
            0 <= x,
        ensures
            ({
                let p = x % self.destPPW as int;
                let s = self.dest_bit(p);
                &&& 0 <= p < self.destPPW
                &&& self.destDepth == 32 ==> self.destPPW == 1 && s == 0 && x / self.destPPW as int
                    == x
                &&& self.destDepth == 16 ==> self.destPPW == 2 && s == (if self.destMSB != 0 {
                    16 - 16 * p
                } else {
                    16 * p
                })
                &&& self.destDepth == 8 ==> self.destPPW == 4 && s == (if self.destMSB != 0 {
                    24 - 8 * p
                } else {
                    8 * p
                })
            }),
    {
        assert(self.destPPW == 32int / self.destDepth as int);
    }

    /// Setting a pixel changes no other pixel of the form.
    proof fn lemma_one_pixel(self, m: Seq<u8>, x: int, y: int, v: u32, u: int, z: int)
        requires
            self.dest_form(m.len()),
            self.destDepth == 8 || self.destDepth == 16 || self.destDepth == 32,
            self.in_form(m.len(), x, y),
            self.in_form(m.len(), u, z),
            v <= width_mask(self.destDepth as int),
        ensures
            ({
                let f = self.dest_row(y) + 4 * (x / self.destPPW as int);
                let after = with_word(
                    m,
                    f,
                    with_field(
                        word_at(m, f),
                        self.destDepth as int,
                        self.dest_bit(x % self.destPPW as int),
                        v,
                    ),
                );
                self.dest_pixel(after, u, z) == if u == x && z == y {
                    v
                } else {
                    self.dest_pixel(m, u, z)
                }
            }),
    {
        let n = self.destPPW as int;
        let f = self.dest_row(y) + 4 * (x / n);
        let g = self.dest_row(z) + 4 * (u / n);
        self.lemma_pixel_field(x);
        self.lemma_pixel_field(u);
        let w = word_at(m, f);
        let s = self.dest_bit(x % n);
        let t = self.dest_bit(u % n);
        lemma_fields(w, v, s as u32, t as u32, width_mask(self.destDepth as int));
        assert(0 <= x / n && 0 <= u / n) by (nonlinear_arith)
            requires
                0 <= x,
                0 <= u,
                1 <= n,
        ;
        let d = self.destDepth as int;
        let after = with_word(m, f, with_field(w, d, s, v));
        if z != y || u / n != x / n {
            self.lemma_rows_apart(y, x / n, z, u / n);
            crate::bitblt::memory::lemma_word_elsewhere(m, f, with_field(w, d, s, v), g);
        } else {
            vstd::arithmetic::div_mod::lemma_fundamental_div_mod(x, n);
            vstd::arithmetic::div_mod::lemma_fundamental_div_mod(u, n);
            assert(f == g);
            crate::bitblt::memory::lemma_word_read_back(m, f, with_field(w, d, s, v));
            if u != x {
                assert(u % n != x % n);
                assert(s != t);
            }
            assert(field(word_at(after, g), d, t) == if u == x {
                v
            } else {
                field(w, d, t)
            });
        }
    }

    /// The pixels of the blit are in the form.
    proof fn lemma_in_form(self, size: nat, j: int, i: int)
        requires
            self.dest_form(size),
            self.destDepth == 8 || self.destDepth == 16 || self.destDepth == 32,
            0 <= j < self.bbH,
            0 <= i < self.bbW,
        ensures
            self.in_form(size, self.dx + i, self.dy + j),
            self.dest_row(self.dy as int) <= self.dest_row(self.dy + j),
            self.dest_row(self.dy + j) + self.destPitch <= self.dest_row(self.dy + self.bbH),
    {
        let x = self.dx + i;
        let n = self.destPPW as int;
        self.lemma_row_in_form(size, self.dy + j);
        self.lemma_pixel_field(x);
        vstd::arithmetic::div_mod::lemma_fundamental_div_mod(x, n);
        let q = x / n;
        let d = self.destDepth as int;
        assert((x + 1) * d <= (self.dx + self.bbW) * d) by (nonlinear_arith)
            requires
                x + 1 <= self.dx + self.bbW,
                0 <= d,
        ;
        assert(n * q * d == 32 * q) by (nonlinear_arith)
            requires
                n * d == 32,
        ;
        assert((x + 1) * d == n * q * d + (x % n + 1) * d) by (nonlinear_arith)
            requires
                x == n * q + x % n,
        ;
        assert((x % n + 1) * d >= 1) by (nonlinear_arith)
            requires
                0 <= x % n,
                1 <= d,
        ;
    }
}

impl BitBlt {
    // ---- What the blend reads ---------------------------------------------

    proof fn lemma_gamma_same(self, m: Seq<u8>, now: Seq<u8>, table: UsqInt, v: u32)
        requires
            self.gamma_aside(m.len(), table),
            self.rows_alone(m, now),
            v <= 255,
        ensures
            BitBlt::through_table(now, table, v) == BitBlt::through_table(m, table, v),
    {
        if table != 0 {
            assert(now[table + v] == m[table + v]);
        }
    }

    proof fn lemma_component_same(self, m: Seq<u8>, now: Seq<u8>, mask: u32, d: u32, at: u32)
        requires
            self.gamma_aside(m.len(), self.gammaLookupTable),
            self.gamma_aside(m.len(), self.ungammaLookupTable),
            self.rows_alone(m, now),
            at == 0 || at == 8 || at == 16,
        ensures
            self.blended_component(now, mask, d, at) == self.blended_component(m, mask, d, at),
    {
        let c = self.componentAlphaModeColor as u32;
        lemma_channels(d);
        lemma_channels(c);
        lemma_channels(mask);
        let table = self.ungammaLookupTable;
        self.lemma_gamma_same(m, now, table, channel(d, at));
        self.lemma_gamma_same(m, now, table, channel(c, at));
        let a = self.scaled_alpha(channel(mask, at));
        let p = BitBlt::through_table(m, table, channel(d, at));
        let q = BitBlt::through_table(m, table, channel(c, at));
        self.lemma_scaled_alpha(channel(mask, at));
        assert(0 <= p * (255 - a) && 0 <= q * a) by (nonlinear_arith)
            requires
                0 <= a <= 255,
                0 <= p,
                0 <= q,
        ;
        self.lemma_gamma_same(m, now, self.gammaLookupTable, BitBlt::lerp_channel(p, q, a));
    }

    /// What the blend makes of a pixel does not depend on what it has written.
    proof fn lemma_blended_same(self, m: Seq<u8>, now: Seq<u8>, j: int, i: int, d: u32)
        requires
            self.blends_plainly(),
            self.blend_apart(m),
            self.rows_alone(m, now),
            0 <= j < self.bbH,
            0 <= i < self.bbW,
        ensures
            self.blended(now, j, i, d) == self.blended(m, j, i, d),
    {
        let at = self.source32_addr(j, i);
        self.lemma_kept_word(m, now, at);
        let s = self.blend_word(m, j, i);
        let color = if self.combinationRule == 41 {
            let mask = if self.destDepth == 8 && BitBlt::mean_color(s) > 224 {
                ALL_ONES
            } else {
                s
            };
            self.lemma_component_same(m, now, mask, self.dest_color(d), 0);
            self.lemma_component_same(m, now, mask, self.dest_color(d), 8);
            self.lemma_component_same(m, now, mask, self.dest_color(d), 16);
            self.component_alpha(m, mask, self.dest_color(d))
        } else {
            alpha_blend_scaled(s, self.dest_color(d))
        };
        if self.destDepth == 8 {
            self.lemma_map_same(m, now, color as sqInt, self.mapper_flags());
            self.lemma_map_same(m, now, s as sqInt, self.mapper_flags());
        }
    }

    /// What the blend makes of a pixel is a pixel.
    proof fn lemma_blended_fits(self, m: Seq<u8>, j: int, i: int, d: u32)
        requires
            self.blends_plainly(),
            self.blend_apart(m),
            d <= width_mask(self.destDepth as int),
        ensures
            self.blended(m, j, i, d) <= width_mask(self.destDepth as int),
    {
        assert forall|color: u32| #[trigger]
            self.dest_value(m, j, i, color) <= width_mask(self.destDepth as int) by {
            crate::bitblt::rules::lemma_dither_pixel(color, self.dither_at(j, i));
            if self.destDepth == 8 {
                assert(self.map_pixel(m, color as sqInt, self.mapper_flags()) as u32 <= 0xFF);
            }
        }
    }

    // ---- The scan ---------------------------------------------------------

    /// The blend of one pixel sets that pixel, or leaves it as it is.
    proof fn lemma_quick_pixel(self, m: Seq<u8>, now: Seq<u8>, j: int, i: int)
        requires
            self.blends_plainly(),
            self.dest_form(m.len()),
            self.blend_apart(m),
            self.blended_to(m, now, j, i),
            0 <= j < self.bbH,
            0 <= i < self.bbW,
        ensures
            ({
                let x = self.dx + i;
                let f = self.dest_row(self.dy + j) + 4 * (x / self.destPPW as int);
                let d = self.dest_pixel(m, x, self.dy + j);
                let v = self.blended(m, j, i, d);
                &&& v <= width_mask(self.destDepth as int)
                &&& self.quick_pixel(now, j, i) == with_word(
                    now,
                    f,
                    with_field(
                        word_at(now, f),
                        self.destDepth as int,
                        self.dest_bit(x % self.destPPW as int),
                        v,
                    ),
                ) || (self.quick_pixel(now, j, i) == now && v == d)
            }),
    {
        let x = self.dx + i;
        let y = self.dy + j;
        let n = self.destPPW as int;
        let f = self.dest_row(y) + 4 * (x / n);
        let s = self.dest_bit(x % n);
        let w = word_at(now, f);
        let d = self.dest_pixel(m, x, y);
        self.lemma_in_form(m.len(), j, i);
        self.lemma_pixel_field(x);
        assert(!self.scanned(x, y, j, i));
        assert(self.dest_pixel(now, x, y) == d);
        self.lemma_blended_same(m, now, j, i, d);
        let v = self.blended(now, j, i, d);
        lemma_channels(self.blend_word(now, j, i));
        lemma_fields(w, 0, s as u32, s as u32, width_mask(self.destDepth as int));
        self.lemma_blended_fits(m, j, i, d);
        lemma_fields(w, v, s as u32, s as u32, width_mask(self.destDepth as int));
        if self.destDepth == 32 {
            assert(self.dest_addr(j, self.dx + i) == f);
            assert(with_field(w, 32, s, v) == v);
            assert(d == w);
        } else if self.destDepth == 16 {
            assert(self.dest16_addr(j, i) == f);
            let high = self.in_high_half(x);
            assert(s == (if high {
                16int
            } else {
                0
            }));
            assert(BitBlt::half_color(w, high) == self.dest_color(d));
        } else {
            assert(self.dest8_addr(j, i) == f);
            assert(self.component8_places() == 4 ==> self.component8_addr(j, i) == f) by {
                assert(self.dx as int / 4 + (self.dx as int % 4 + i) / 4 == x / 4);
            }
            assert((self.dx as int % 4 + i) % 4 == x % 4);
            assert(self.byte_shift(x % 4) == s);
            assert(BitBlt::byte_color(w, s) == self.dest_color(d));
            assert(BitBlt::with_byte(w, s, v) == with_field(w, 8, s, v));
        }
    }

    proof fn lemma_blend_step(self, m: Seq<u8>, now: Seq<u8>, j: int, i: int)
        requires
            self.blends_plainly(),
            self.dest_form(m.len()),
            self.blend_apart(m),
            self.blended_to(m, now, j, i),
            0 <= j < self.bbH,
            0 <= i < self.bbW,
        ensures
            self.blended_to(m, self.quick_pixel(now, j, i), j, i + 1),
    {
        let (x, y) = (self.dx + i, self.dy + j);
        let n = self.destPPW as int;
        let f = self.dest_row(y) + 4 * (x / n);
        let d = self.dest_pixel(m, x, y);
        let v = self.blended(m, j, i, d);
        let after = self.quick_pixel(now, j, i);
        self.lemma_quick_pixel(m, now, j, i);
        self.lemma_in_form(m.len(), j, i);
        self.lemma_pixel_field(x);
        assert(!self.scanned(x, y, j, i));
        assert(self.dest_pixel(now, x, y) == d);
        let set = with_word(
            now,
            f,
            with_field(word_at(now, f), self.destDepth as int, self.dest_bit(x % n), v),
        );
        assert(0 <= x / n) by (nonlinear_arith)
            requires
                0 <= x,
                1 <= n,
        ;
        assert forall|a: int|
            0 <= a < m.len() && !(self.dest_row(self.dy as int) <= a < self.dest_row(
                self.dy + self.bbH,
            )) implies #[trigger] after[a] == m[a] by {
            reveal(with_word);
            assert(now[a] == m[a]);
        }
        assert forall|u: int, z: int| self.in_form(m.len(), u, z) implies #[trigger] self.dest_pixel(
            after,
            u,
            z,
        ) == (if self.scanned(u, z, j, i + 1) {
            self.blended(m, z - self.dy, u - self.dx, self.dest_pixel(m, u, z))
        } else {
            self.dest_pixel(m, u, z)
        }) by {
            self.lemma_one_pixel(now, x, y, v, u, z);
            assert(self.dest_pixel(set, u, z) == if u == x && z == y {
                v
            } else {
                self.dest_pixel(now, u, z)
            });
        }
    }

    proof fn lemma_blend_scan(self, m: Seq<u8>, j: int, i: int)
        requires
            self.blends_plainly(),
            self.dest_form(m.len()),
            self.blend_apart(m),
            0 <= j <= self.bbH,
            0 <= i <= self.bbW,
            j == self.bbH ==> i == 0,
        ensures
            self.blended_to(
                m,
                scan(
                    |s: Seq<u8>, k: int, l: int| self.quick_pixel(s, k, l),
                    m,
                    self.bbW as int,
                    j,
                    i,
                ),
                j,
                i,
            ),
        decreases j, i,
    {
        let f = |s: Seq<u8>, k: int, l: int| self.quick_pixel(s, k, l);
        if i > 0 {
            self.lemma_blend_scan(m, j, i - 1);
            self.lemma_blend_step(m, scan(f, m, self.bbW as int, j, i - 1), j, i - 1);
        } else if j > 0 {
            self.lemma_blend_scan(m, j - 1, self.bbW as int);
            let now = scan(f, m, self.bbW as int, j - 1, self.bbW as int);
            assert forall|x: int, y: int| #[trigger] self.scanned(x, y, j, 0) == self.scanned(
                x,
                y,
                j - 1,
                self.bbW as int,
            ) by {}
            assert(self.blended_to(m, now, j, 0));
        }
    }

    /// A blend changes just the pixels of its rectangle: each becomes what the rule
    /// makes of it and of the source pixel that belongs there. Every other pixel of
    /// the form stays, and so does the memory outside the rows of the blit.
    pub proof fn lemma_blend(self, m: Seq<u8>, x: int, y: int, a: int)
        requires
            self.blends_plainly(),
            self.dest_form(m.len()),
            self.blend_apart(m),
            self.in_form(m.len(), x, y),
            0 <= a < m.len(),
        ensures
            self.dest_pixel(self.quick_memory(m), x, y) == (if self.dx <= x < self.dx + self.bbW
                && self.dy <= y < self.dy + self.bbH {
                self.blended(m, y - self.dy, x - self.dx, self.dest_pixel(m, x, y))
            } else {
                self.dest_pixel(m, x, y)
            }),
            !(self.dest_row(self.dy as int) <= a < self.dest_row(self.dy + self.bbH))
                ==> self.quick_memory(m)[a] == m[a],
    {
        self.lemma_blend_scan(m, self.bbH as int, 0);
        let f = |s: Seq<u8>, k: int, l: int| self.quick_pixel(s, k, l);
        let after = scan(f, m, self.bbW as int, self.bbH as int, 0);
        assert(self.quick_memory(m) == after) by {
            assert(f =~= (|x: Seq<u8>, j: int, i: int| self.quick_pixel(x, j, i)));
        }
        assert(self.dest_pixel(after, x, y) == self.dest_pixel(self.quick_memory(m), x, y));
    }
}

impl BitBlt {
    /// A blit that a short cut takes clips and then goes over its pixels.
    pub proof fn lemma_blend_blit(self, m: Seq<u8>, a: BlitArgs)
        requires
            !self.clipped().is_empty_blit(),
            self.clipped().begun().with_args(a).1,
            self.clipped().begun().with_args(a).0.is_quick(),
        ensures
            self.copied_bits(m, a).1,
            self.copied_bits(m, a).0.mem == self.clipped().begun().with_args(a).0.quick_memory(m),
    {
    }

    /// Within its forms, a blend can be carried out.
    pub proof fn lemma_blend_runs(self, m: Seq<u8>)
        requires
            self.blends_plainly(),
            self.dest_form(m.len()),
            self.blend_apart(m),
            0 <= self.sx,
            0 <= self.sy,
        ensures
            self.quick_ok(m.len()),
    {
        let size = m.len();
        assert forall|j: int, i: int| 0 <= j < self.bbH && 0 <= i < self.bbW implies ({
            let f = #[trigger] self.dest_addr(j, (self.dx + i) / self.destPPW as int);
            0 <= f && f + 4 <= size
        }) by {
            self.lemma_in_form(size, j, i);
            self.lemma_pixel_field(self.dx + i);
        }
        assert forall|j: int, i: int|
            0 <= j < self.bbH && 0 <= i < self.bbW && self.destDepth == 32 implies 0
            <= #[trigger] self.dest_addr(j, self.dx + i) && self.dest_addr(j, self.dx + i) + 4
            <= size by {
            self.lemma_pixel_field(self.dx + i);
            assert(0 <= self.dest_addr(j, (self.dx + i) / self.destPPW as int));
        }
        assert forall|j: int, i: int|
            0 <= j < self.bbH && 0 <= i < self.bbW && self.destDepth == 16 implies 0
            <= #[trigger] self.dest16_addr(j, i) && self.dest16_addr(j, i) + 4 <= size by {
            self.lemma_pixel_field(self.dx + i);
            assert(0 <= self.dest_addr(j, (self.dx + i) / self.destPPW as int));
        }
        assert forall|j: int, i: int|
            0 <= j < self.bbH && 0 <= i < self.bbW && self.destDepth == 8 implies 0
            <= #[trigger] self.dest8_addr(j, i) && self.dest8_addr(j, i) + 4 <= size by {
            self.lemma_pixel_field(self.dx + i);
            assert(0 <= self.dest_addr(j, (self.dx + i) / self.destPPW as int));
        }
        if self.destDepth == 8 && self.combinationRule == 41 {
            assert forall|j: int, i: int| 0 <= j < self.bbH && 0 <= i < self.bbW implies 0
                <= #[trigger] self.component8_addr(j, i) && self.component8_addr(j, i) + 4
                <= size by {
                assert(self.dx as int / 4 + (self.dx as int % 4 + i) / 4 == (self.dx + i) / 4);
                assert(0 <= self.dest8_addr(j, i));
            }
        }
    }
}

/// Bits of a word that are set at one place, and what is at another.
proof fn lemma_fields(w: u32, v: u32, s: u32, t: u32, mask: u32)
    by (bit_vector)
    requires
        (mask == 0xFFu32 && (s == 0 || s == 8 || s == 16 || s == 24) && (t == 0 || t == 8 || t == 16
            || t == 24)) || (mask == 0xFFFFu32 && (s == 0 || s == 16) && (t == 0 || t == 16)) || (
        mask == 0xFFFF_FFFFu32 && s == 0 && t == 0),
        v <= mask,
    ensures
        ((((w & !(mask << s)) | (v << s)) >> s) & mask) == v,
        s != t ==> ((((w & !(mask << s)) | (v << s)) >> t) & mask) == ((w >> t) & mask),
        (w & (mask << s)) >> s == (w >> s) & mask,
        (w >> s) & mask <= mask,
        mask == 0xFFFF_FFFFu32 ==> (w & !(mask << s)) | (v << s) == v && (w >> s) & mask == w,
        mask == 0xFFFFu32 && s == 16 ==> (w & !(mask << s)) | (v << s) == (w & 0xFFFF) | (v << 16)
            && (w >> s) & mask == w >> 16,
        mask == 0xFFFFu32 && s == 0 ==> (w & !(mask << s)) | (v << s) == (w & 0xFFFF_0000) | v
            && (w >> s) & mask == w & 0xFFFF,
{
}

} // verus!
