//! What the blends with alpha come to in numbers: every byte of the result from the
//! bytes that go into it.
use vstd::prelude::*;
use crate::prim::sqInt;
use crate::bitblt::blit::BlitArgs;
use crate::bitblt::memory::word_at;
use crate::bitblt::merge::lemma_shift_zero;
use crate::bitblt::rules::{
    alpha_blend, alpha_blend_scaled, channel, mix_channel, over_channel, pack4,
};
use crate::bitblt::state::{width_mask, BitBlt};

verus! {

/// The byte of a word with this weight: 1, 256, 65536 or 16777216.
pub open spec fn byte_of(w: u32, weight: int) -> int {
    (w as int / weight) % 256
}

/// One of the four weights of a byte.
pub open spec fn is_weight(k: int) -> bool {
    k == 1 || k == 0x100 || k == 0x1_0000 || k == 0x100_0000
}

proof fn lemma_bytes(w: u32, x: sqInt, a: u32, r: u32, g: u32, b: u32)
    by (bit_vector)
    requires
        a <= 255,
        r <= 255,
        g <= 255,
        b <= 255,
    ensures
        (w >> 0u32) & 0xFF == w % 256,
        (w >> 8u32) & 0xFF == (w / 256) % 256,
        (w >> 16u32) & 0xFF == (w / 65536) % 256,
        (w >> 24u32) & 0xFF == (w / 16777216) % 256,
        w >> 24u32 == w / 16777216,
        w & 0xFF_FFFF == w % 16777216,
        (w >> 0u32) & 0xFFFF_FFFF == w,
        w & 0xFFFF_FFFF == w,
        0u32 | w == w,
        x >= 0 && x <= 255 ==> x & 0xFF == x,
        ({
            let v = (a << 24) | (r << 16) | (g << 8) | b;
            &&& v % 256 == b
            &&& (v / 256) % 256 == g
            &&& (v / 65536) % 256 == r
            &&& (v / 16777216) % 256 == a
        }),
{
}

/// Rule 24 mixes source and destination in the proportion of the source's alpha,
/// rounding up, byte by byte; the alpha of the result is that of an opaque source
/// mixed in.
pub proof fn lemma_alpha_bytes(s: u32, d: u32, k: int)
    requires
        is_weight(k),
    ensures
        ({
            let alpha = byte_of(s, 0x100_0000);
            let source = if k == 0x100_0000 && alpha != 255 {
                255
            } else {
                byte_of(s, k)
            };
            let v = byte_of(alpha_blend(s, d), k);
            &&& alpha == 0 ==> v == byte_of(d, k)
            &&& alpha == 255 ==> v == byte_of(s, k)
            &&& 0 < alpha < 255 ==> source * alpha + byte_of(d, k) * (255 - alpha) <= 255 * v
                < source * alpha + byte_of(d, k) * (255 - alpha) + 255
        }),
{
    let alpha = s >> 24u32;
    lemma_channel_bytes(s);
    lemma_channel_bytes(d);
    if 0 < alpha < 255 {
        let a = mix_channel(0xFF, channel(d, 24), alpha);
        let r = mix_channel(channel(s, 16), channel(d, 16), alpha);
        let g = mix_channel(channel(s, 8), channel(d, 8), alpha);
        let b = mix_channel(channel(s, 0), channel(d, 0), alpha);
        lemma_mix_byte(0xFF, channel(d, 24), alpha);
        lemma_mix_byte(channel(s, 16), channel(d, 16), alpha);
        lemma_mix_byte(channel(s, 8), channel(d, 8), alpha);
        lemma_mix_byte(channel(s, 0), channel(d, 0), alpha);
        lemma_packed_bytes(a, r, g, b);
        if k == 0x100_0000 {
            lemma_mix_rounds(0xFF, channel(d, 24), alpha);
        } else if k == 0x1_0000 {
            lemma_mix_rounds(channel(s, 16), channel(d, 16), alpha);
        } else if k == 0x100 {
            lemma_mix_rounds(channel(s, 8), channel(d, 8), alpha);
        } else {
            lemma_mix_rounds(channel(s, 0), channel(d, 0), alpha);
        }
    }
}

/// The bytes of a word in numbers.
pub(crate) proof fn lemma_channel_bytes(w: u32)
    ensures
        byte_of(w, 1) == channel(w, 0) <= 255,
        byte_of(w, 0x100) == channel(w, 8) <= 255,
        byte_of(w, 0x1_0000) == channel(w, 16) <= 255,
        byte_of(w, 0x100_0000) == channel(w, 24) <= 255,
        w >> 24u32 == byte_of(w, 0x100_0000),
{
    lemma_bytes(w, 0, 0, 0, 0, 0);
}

/// The bytes of a word that four bytes were packed into.
proof fn lemma_packed_bytes(a: u32, r: u32, g: u32, b: u32)
    requires
        a <= 255,
        r <= 255,
        g <= 255,
        b <= 255,
    ensures
        byte_of(pack4(a, r, g, b), 1) == b,
        byte_of(pack4(a, r, g, b), 0x100) == g,
        byte_of(pack4(a, r, g, b), 0x1_0000) == r,
        byte_of(pack4(a, r, g, b), 0x100_0000) == a,
{
    lemma_bytes(0, 0, a, r, g, b);
}

proof fn lemma_mix_byte(x: u32, y: u32, a: u32)
    requires
        x <= 255,
        y <= 255,
        a <= 255,
    ensures
        mix_channel(x, y, a) <= 255,
{
    lemma_mix_rounds(x, y, a);
}

/// A mix of two bytes is rounded up to a byte.
proof fn lemma_mix_rounds(x: u32, y: u32, a: u32)
    requires
        x <= 255,
        y <= 255,
        a <= 255,
    ensures
        mix_channel(x, y, a) <= 255,
        x * a + y * (255 - a) <= 255 * mix_channel(x, y, a) < x * a + y * (255 - a) + 255,
{
    assert(0 <= x * a + y * (255 - a) <= 255 * 255) by (nonlinear_arith)
        requires
            x <= 255,
            y <= 255,
            a <= 255,
    ;
}

/// What is left of a byte added to another is held to a byte.
proof fn lemma_over_byte(x: u32, y: u32, u: u32)
    requires
        x <= 255,
        y <= 255,
        u <= 255,
    ensures
        over_channel(x, y, u) <= 255,
        over_channel(x, y, u) == (if x + (y * u) / 256 > 255 {
            255
        } else {
            x + (y * u) / 256
        }),
{
    assert(0 <= y * u) by (nonlinear_arith);
}

/// Rules 34 to 36 add to the source what its alpha leaves of the destination, byte
/// by byte, and stop at 255.
pub proof fn lemma_scaled_bytes(s: u32, d: u32, k: int)
    requires
        is_weight(k),
    ensures
        ({
            let left = 255 - byte_of(s, 0x100_0000);
            let sum = byte_of(s, k) + (byte_of(d, k) * left) / 256;
            byte_of(alpha_blend_scaled(s, d), k) == if sum > 255 {
                255
            } else {
                sum
            }
        }),
{
    lemma_channel_bytes(s);
    lemma_channel_bytes(d);
    let un = (0xFF - (s >> 24u32)) as u32;
    lemma_over_byte(channel(s, 24), channel(d, 24), un);
    lemma_over_byte(channel(s, 16), channel(d, 16), un);
    lemma_over_byte(channel(s, 8), channel(d, 8), un);
    lemma_over_byte(channel(s, 0), channel(d, 0), un);
    lemma_packed_bytes(
        over_channel(channel(s, 24), channel(d, 24), un),
        over_channel(channel(s, 16), channel(d, 16), un),
        over_channel(channel(s, 8), channel(d, 8), un),
        over_channel(channel(s, 0), channel(d, 0), un),
    );
}

impl BitBlt {
    /// Rule 41 on one pixel: each color byte of the pixel and of the blit's color is
    /// taken through the one table, the two are mixed by the byte of the mask, and
    /// the mix is taken through the other table. A table that is not there changes
    /// nothing. The alpha goes through no table.
    pub proof fn lemma_masked_bytes(self, m: Seq<u8>, mask: u32, d: u32, k: int)
        requires
            mask != 0,
            is_weight(k),
            self.gammas_ok(m.len()),
            0 <= self.componentAlphaModeAlpha <= 255,
        ensures
            ({
                let own = byte_of(mask, k);
                let a = if self.componentAlphaModeAlpha == 255 {
                    own
                } else {
                    (own * self.componentAlphaModeAlpha) / 256
                };
                let mix = |x: int, y: int|
                    {
                        let sum = (x * (255 - a)) / 256 + (y * a) / 256;
                        if sum > 255 {
                            255
                        } else {
                            sum
                        }
                    };
                let (g, u) = (self.gammaLookupTable as int, self.ungammaLookupTable as int);
                let (below, color) = (
                    byte_of(d, k),
                    byte_of(self.componentAlphaModeColor as u32, k),
                );
                let v = byte_of(self.component_alpha(m, mask, d), k);
                if k == 0x100_0000 {
                    v == mix(below, 256)
                } else if g != 0 && u != 0 {
                    v == m[g + mix(m[u + below] as int, m[u + color] as int)]
                } else if g != 0 {
                    v == m[g + mix(below, color)]
                } else if u != 0 {
                    v == mix(m[u + below] as int, m[u + color] as int)
                } else {
                    v == mix(below, color)
                }
            }),
    {
        let c = self.componentAlphaModeColor as u32;
        lemma_bytes(mask, self.componentAlphaModeAlpha, 0, 0, 0, 0);
        lemma_bytes(d, 0, 0, 0, 0, 0);
        lemma_bytes(c, 0, 0, 0, 0, 0);
        self.lemma_scaled_alpha((mask >> 24u32) & 0xFF);
        self.lemma_scaled_alpha((mask >> 16u32) & 0xFF);
        self.lemma_scaled_alpha((mask >> 8u32) & 0xFF);
        self.lemma_scaled_alpha((mask >> 0u32) & 0xFF);
        let top = BitBlt::lerp_channel(
            (d >> 24u32) & 0xFF,
            256,
            self.scaled_alpha((mask >> 24u32) & 0xFF),
        );
        self.lemma_component_byte(m, mask, d, 16);
        self.lemma_component_byte(m, mask, d, 8);
        self.lemma_component_byte(m, mask, d, 0);
        lemma_lerp_byte((d >> 24u32) & 0xFF, 256, self.scaled_alpha((mask >> 24u32) & 0xFF));
        lemma_bytes(
            0,
            0,
            top,
            self.blended_component(m, mask, d, 16),
            self.blended_component(m, mask, d, 8),
            self.blended_component(m, mask, d, 0),
        );
    }

    /// A blended component is a byte.
    proof fn lemma_component_byte(self, m: Seq<u8>, mask: u32, d: u32, at: u32)
        requires
            at == 0 || at == 8 || at == 16,
        ensures
            self.blended_component(m, mask, d, at) <= 255,
    {
        let c = self.componentAlphaModeColor as u32;
        lemma_bytes(mask, 0, 0, 0, 0, 0);
        lemma_bytes(d, 0, 0, 0, 0, 0);
        lemma_bytes(c, 0, 0, 0, 0, 0);
        let a = self.scaled_alpha((mask >> at) & 0xFF);
        self.lemma_scaled_alpha((mask >> at) & 0xFF);
        let below = BitBlt::through_table(m, self.ungammaLookupTable, (d >> at) & 0xFF);
        let over = BitBlt::through_table(m, self.ungammaLookupTable, (c >> at) & 0xFF);
        lemma_lerp_byte(below, over, a);
    }
}

impl BitBlt {
    /// Rule 30 mixes 32-bit pixels in the proportion of the blit's alpha, rounding
    /// up, byte by byte. So does rule 31, which leaves a pixel alone where the source
    /// is 0.
    pub proof fn lemma_constant_bytes(self, mask: u32, s: u32, d: u32, k: int, paint: bool)
        requires
            self.dest_wf(),
            self.destDepth == 32,
            0 <= self.sourceAlpha <= 255,
            is_weight(k),
        ensures
            ({
                let v = byte_of(self.blend_const(mask, s, d, paint), k);
                let alpha = self.sourceAlpha as int;
                let sum = byte_of(s, k) * alpha + byte_of(d, k) * (255 - alpha);
                if paint && s == 0 {
                    self.blend_const(mask, s, d, paint) == d
                } else {
                    sum <= 255 * v < sum + 255
                }
            }),
    {
        let alpha = self.sourceAlpha as u32;
        assert(self.destPPW == 1);
        lemma_channel_bytes(s);
        lemma_channel_bytes(d);
        lemma_mix_byte(channel(s, 24), channel(d, 24), alpha);
        lemma_mix_byte(channel(s, 16), channel(d, 16), alpha);
        lemma_mix_byte(channel(s, 8), channel(d, 8), alpha);
        lemma_mix_byte(channel(s, 0), channel(d, 0), alpha);
        lemma_packed_bytes(
            mix_channel(channel(s, 24), channel(d, 24), alpha),
            mix_channel(channel(s, 16), channel(d, 16), alpha),
            mix_channel(channel(s, 8), channel(d, 8), alpha),
            mix_channel(channel(s, 0), channel(d, 0), alpha),
        );
        if k == 0x100_0000 {
            lemma_mix_rounds(channel(s, 24), channel(d, 24), alpha);
        } else if k == 0x1_0000 {
            lemma_mix_rounds(channel(s, 16), channel(d, 16), alpha);
        } else if k == 0x100 {
            lemma_mix_rounds(channel(s, 8), channel(d, 8), alpha);
        } else {
            lemma_mix_rounds(channel(s, 0), channel(d, 0), alpha);
        }
    }

    /// Rule 41 on words of one 32-bit pixel is rule 41 on the pixel.
    pub proof fn lemma_masked_word(self, m: Seq<u8>, mask: u32, d: u32)
        requires
            self.dest_wf(),
            self.destDepth == 32,
        ensures
            mask == 0 ==> self.component_word(m, mask, d) == d,
            mask != 0 ==> self.component_word(m, mask, d) == self.component_alpha(m, mask, d),
    {
        if mask != 0 {
            assert(self.destPPW == 1);
            lemma_bytes(mask, 0, 0, 0, 0, 0);
            lemma_bytes(d, 0, 0, 0, 0, 0);
            lemma_shift_zero(mask);
            lemma_shift_zero(d);
            lemma_shift_zero(width_mask(32));
            let v = self.component_alpha(m, mask, d);
            lemma_shift_zero(v);
            lemma_bytes(v, 0, 0, 0, 0, 0);
            assert(self.component_pixel(m, mask, d, 0) == v);
            assert(self.component_pixels(m, mask, d, 0) == 0);
            assert(self.component_pixels(m, mask, d, 1) == v);
        }
    }

    /// The arguments of a blit by rule 41: a color, an alpha and both tables, which
    /// are apart from the destination form.
    pub open spec fn gamma_args(self, a: BlitArgs, size: nat) -> bool {
        &&& a.count == 4
        &&& a.first matches Some(color) && 0 <= color <= 0xFFFF_FFFF
        &&& a.second matches Some(alpha) && 0 <= alpha <= 255
        &&& a.gamma matches Some(g) && g != 0 && g + 256 <= size && self.beside(g as int, 256)
        &&& a.ungamma matches Some(u) && u != 0 && u + 256 <= size && self.beside(u as int, 256)
    }

    /// A whole blit by rule 41 between 32-bit forms, with a color, an alpha and two
    /// tables: a color byte of every pixel that was asked for becomes the byte of
    /// the one table at the mix of the bytes of the other table at the pixel's own
    /// byte and at the color's, in the proportion of the mask's byte. Where the mask
    /// has no color the pixel stays.
    pub proof fn lemma_gamma_blit(self, m: Seq<u8>, a: BlitArgs, x: int, y: int, k: int)
        requires
            self.combinationRule == 41,
            !self.noSource,
            self.sourceDepth == 32,
            self.destDepth == 32,
            self.sourceForm != self.destForm,
            self.clip_exact(),
            self.dest_whole(m.len()),
            self.source_whole(m.len()),
            self.beside(self.source_row(0), self.sourceHeight * self.sourcePitch),
            self.gamma_args(a, m.len()),
            self.asks_for(x, y),
            k == 1 || k == 0x100 || k == 0x1_0000,
        ensures
            ({
                let after = self.copied_bits(m, a).0.mem;
                let mask = self.source_pixel(
                    m,
                    x - self.destX + self.sourceX,
                    y - self.destY + self.sourceY,
                );
                let d = self.dest_pixel(m, x, y);
                let own = byte_of(mask, k);
                let p = if a.second->0 == 255 {
                    own
                } else {
                    (own * a.second->0) / 256
                };
                let (g, u) = (a.gamma->0 as int, a.ungamma->0 as int);
                let below = m[u + byte_of(d, k)] as int;
                let color = m[u + byte_of(a.first->0 as u32, k)] as int;
                let sum = (below * (255 - p)) / 256 + (color * p) / 256;
                &&& self.copied_bits(m, a).1
                &&& mask as int % 0x100_0000 == 0 ==> self.dest_pixel(after, x, y) == d
                &&& mask as int % 0x100_0000 != 0 ==> byte_of(self.dest_pixel(after, x, y), k)
                    == m[g + if sum > 255 {
                    255
                } else {
                    sum
                }]
            }),
    {
        let c = self.clipped();
        self.lemma_clip(x, y);
        assert(!c.is_empty_blit());
        let size = m.len();
        self.lemma_left_in_form(size);
        self.lemma_left_in_source(size);
        let run = c.begun().with_args(a).0;
        assert(c.begun().with_args(a).1);
        assert(run.is_quick());
        self.lemma_blend_blit(m, a);
        assert(run.dest_row(run.dy + run.bbH) == self.dest_row(c.dy + c.bbH));
        assert(run.dest_row(run.dy as int) == self.dest_row(c.dy as int));
        assert(run.dest_form(size));
        assert forall|j: int, i: int| 0 <= j < run.bbH && 0 <= i < run.bbW implies 0
            <= #[trigger] run.source32_addr(j, i) && run.source32_addr(j, i) + 4 <= size
            && run.aside(run.source32_addr(j, i), 4) by {
            self.lemma_source32(size, j, i);
        }
        assert(run.blend_apart(m));
        self.lemma_row_there(size, y);
        assert(run.destPPW == 1);
        assert(run.dest_row(y) == self.dest_row(y));
        assert(run.in_form(size, x, y));
        run.lemma_blend(m, x, y, 0);
        assert(run.dest_pixel(m, x, y) == self.dest_pixel(m, x, y));
        let after = self.copied_bits(m, a).0.mem;
        assert(run.dest_pixel(after, x, y) == self.dest_pixel(after, x, y));
        let (sx, sy) = (x - self.destX + self.sourceX, y - self.destY + self.sourceY);
        let mask = self.source_pixel(m, sx, sy);
        let w = word_at(m, self.source_row(sy) + 4 * sx);
        assert(run.source32_addr(y - run.dy, x - run.dx) == self.source_row(sy) + 4 * sx);
        assert(sx / 1 == sx && sx % 1 == 0);
        lemma_bytes(w, 0, 0, 0, 0, 0);
        assert(mask == w) by {
            lemma_shift_zero(w);
            assert(self.source_ppw() == 1);
            assert(self.source_bit(0) == 0);
        }
        let d = self.dest_pixel(m, x, y);
        assert(run.blended(m, y - run.dy, x - run.dx, d) == if mask & 0xFF_FFFF == 0 {
            d
        } else {
            run.component_alpha(m, mask, d)
        });
        if mask & 0xFF_FFFF != 0 {
            assert(mask != 0);
            run.lemma_masked_bytes(m, mask, d, k);
        }
    }

    /// The words of the source that are read lie beside the destination.
    proof fn lemma_source32(self, size: nat, j: int, i: int)
        requires
            self.clip_exact(),
            !self.noSource,
            self.sourceDepth == 32,
            self.dest_whole(size),
            self.source_whole(size),
            self.beside(self.source_row(0), self.sourceHeight * self.sourcePitch),
            !self.clipped().is_empty_blit(),
            0 <= j < self.clipped().bbH,
            0 <= i < self.clipped().bbW,
        ensures
            ({
                let c = self.clipped();
                let f = c.source32_addr(j, i);
                &&& 0 <= f && f + 4 <= size
                &&& c.aside(f, 4)
            }),
    {
        let c = self.clipped();
        self.lemma_left_in_form(size);
        self.lemma_left_in_source(size);
        let p = self.sourcePitch as int;
        let y = c.sy + j;
        assert(0 <= y * p && y * p + p <= (c.sy + c.bbH) * p && 0 * p == 0) by (nonlinear_arith)
            requires
                0 <= y,
                y + 1 <= c.sy + c.bbH,
                0 <= p,
        ;
        assert(self.sourceHeight * p == p * self.sourceHeight) by (nonlinear_arith);
        let f = c.source32_addr(j, i);
        assert(self.source_row(c.sy + c.bbH) == self.sourceBits + (c.sy + c.bbH) * p);
        assert(self.source_row(0) <= f && f + 4 <= self.source_row(self.sourceHeight as int));
    }
}

proof fn lemma_lerp_byte(d: u32, s: u32, a: u32)
    requires
        d <= 255,
        s <= 256,
        a <= 255,
    ensures
        BitBlt::lerp_channel(d, s, a) <= 255,
        0 <= (d * (255 - a)) / 256 + (s * a) / 256,
{
    assert(0 <= d * (255 - a) && 0 <= s * a) by (nonlinear_arith)
        requires
            a <= 255,
    ;
}

} // verus!
