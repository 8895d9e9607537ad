//! What mixing colors and changing their depth keep.
use vstd::prelude::*;

use crate::bitblt::color::lemma_channels;
use crate::bitblt::rules::{alpha_blend, alpha_blend_scaled, channel, mix_channel};
use crate::bitblt::rules::{rgb_map, widen16};
use crate::bitblt::state::{shl_word, BitBlt, COLOR_MAP_INDEXED_PART};
use crate::prim::sqInt;

verus! {

/// A mix of two channels lies between them. It is the one at proportion 255 and
/// the other at 0.
pub proof fn lemma_mix_between(s: u32, d: u32, a: u32)
    requires
        s <= 255,
        d <= 255,
        a <= 255,
    ensures
        s <= d ==> s <= mix_channel(s, d, a) <= d,
        d <= s ==> d <= mix_channel(s, d, a) <= s,
        a == 255 ==> mix_channel(s, d, a) == s,
        a == 0 ==> mix_channel(s, d, a) == d,
{
    let v = s * a + d * (255 - a);
    assert(s <= d ==> 255 * s <= v <= 255 * d) by (nonlinear_arith)
        requires
            v == s * a + d * (255 - a),
            0 <= a <= 255,
    ;
    assert(d <= s ==> 255 * d <= v <= 255 * s) by (nonlinear_arith)
        requires
            v == s * a + d * (255 - a),
            0 <= a <= 255,
    ;
    assert(a == 255 ==> v == 255 * s) by (nonlinear_arith)
        requires
            v == s * a + d * (255 - a),
    ;
    assert(a == 0 ==> v == 255 * d) by (nonlinear_arith)
        requires
            v == s * a + d * (255 - a),
    ;
}

/// Rule 24 leaves the destination under a source without alpha, and puts an
/// opaque source in its place.
pub proof fn lemma_blend_ends(s: u32, d: u32)
    ensures
        s >> 24 == 0 ==> alpha_blend(s, d) == d,
        s >> 24 == 255 ==> alpha_blend(s, d) == s,
{
}

/// Rules 34 to 36 put an opaque source in the place of the destination.
pub proof fn lemma_scaled_opaque(s: u32, d: u32)
    requires
        s >> 24 == 255,
    ensures
        alpha_blend_scaled(s, d) == s,
{
    lemma_channels(s);
    assert((channel(d, 24) * 0) / 256 == 0 && (channel(d, 16) * 0) / 256 == 0 && (channel(d, 8)
        * 0) / 256 == 0 && (channel(d, 0) * 0) / 256 == 0) by (nonlinear_arith);
}

impl BitBlt {
    /// Rule 30 at 32 bits leaves the destination with a constant alpha of 0 and
    /// puts the source in its place with one of 255.
    pub proof fn lemma_constant_ends(self, mask: u32, s: u32, d: u32)
        requires
            self.dest_wf(),
            self.destDepth == 32,
        ensures
            self.sourceAlpha == 0 ==> self.blend_const(mask, s, d, false) == d,
            self.sourceAlpha == 255 ==> self.blend_const(mask, s, d, false) == s,
    {
        lemma_channels(s);
        lemma_channels(d);
        assert(self.destPPW == 1);
        if self.sourceAlpha == 0 || self.sourceAlpha == 255 {
            let a = self.sourceAlpha as u32;
            lemma_mix_between(channel(s, 24), channel(d, 24), a);
            lemma_mix_between(channel(s, 16), channel(d, 16), a);
            lemma_mix_between(channel(s, 8), channel(d, 8), a);
            lemma_mix_between(channel(s, 0), channel(d, 0), a);
        }
    }

    /// The fixed part of a color map takes no pixel but 0 to 0.
    pub proof fn lemma_map_keeps_ink(self, m: Seq<u8>, pixel: sqInt, flags: sqInt)
        requires
            pixel != 0,
            flags & COLOR_MAP_INDEXED_PART == 0,
        ensures
            self.map_pixel(m, pixel, flags) != 0,
    {
    }
}

/// Fewer bits per component never take a pixel that is not 0 to 0.
pub proof fn lemma_fewer_bits_keep_ink(pixel: sqInt, n_in: int, n_out: int)
    requires
        pixel != 0,
        n_out < n_in,
    ensures
        rgb_map(pixel, n_in, n_out) != 0,
{
}

proof fn lemma_fifteen_bits(p: u32)
    by (bit_vector)
    requires
        p <= 0xFFFF,
    ensures
        ({
            let v = p as i64 as u64;
            let m: i64 = ((31i64 as u64) << 3u64) as i64;
            let m1: i64 = ((m as u64) << 8u64) as i64;
            let m2: i64 = ((m1 as u64) << 8u64) as i64;
            let v1: i64 = (v << 3u64) as i64;
            let v2: i64 = ((v1 as u64) << 3u64) as i64;
            let v3: i64 = ((v2 as u64) << 3u64) as i64;
            let w = ((p & 0x1F) << 3) | ((p & 0x3E0) << 6) | ((p & 0x7C00) << 9);
            (v1 & m) + (v2 & m1) + (v3 & m2) == w
        }),
        ({
            let w = ((p & 0x1F) << 3) | ((p & 0x3E0) << 6) | ((p & 0x7C00) << 9);
            let v = w as i64 as u64;
            let m: i64 = 31;
            let m1: i64 = ((m as u64) << 5u64) as i64;
            let m2: i64 = ((m1 as u64) << 5u64) as i64;
            let v1: i64 = (v >> 3u64) as i64;
            let v2: i64 = ((v1 as u64) >> 3u64) as i64;
            let v3: i64 = ((v2 as u64) >> 3u64) as i64;
            &&& (v1 & m) + (v2 & m1) + (v3 & m2) == p & 0x7FFF
            &&& (p & 0x7FFF != 0) == (w != 0)
            &&& p <= 0x7FFF ==> p & 0x7FFF == p
        }),
        1u32 << 5 == 32,
{
}

/// Widening a 16-bit pixel to 24 bits takes its 15 low bits, one component after
/// the other, and narrowing gives those 15 bits back.
pub proof fn lemma_widen_and_narrow(p: u32)
    requires
        p <= 0xFFFF,
    ensures
        rgb_map(p as sqInt, 5, 8) == widen16(p),
        rgb_map(widen16(p) as sqInt, 8, 5) == p & 0x7FFF,
        p <= 0x7FFF ==> rgb_map(widen16(p) as sqInt, 8, 5) == p,
{
    lemma_fifteen_bits(p);
    assert(shl_word(1, 5).wrapping_sub(1) == 31);
}

} // verus!
