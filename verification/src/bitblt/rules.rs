//! The combination rules that need no register, and the operations on packed
//! words they are made of.
use vstd::prelude::*;
use crate::prim::sqInt;
use crate::bitblt::state::{
    maskFor, shift_long, shift_sq, shl32, shl_word, shr32, shr_word, width_mask,
    DITHER_THRESHOLDS_16, DITHER_VALUES_16,
};

verus! {

// ---- Channels -------------------------------------------------------------

/// The byte of a word whose lowest bit is bit `at`.
pub open spec fn channel(w: u32, at: u32) -> u32 {
    (w >> at) & 0xFF
}

/// Four bytes packed into a word, the first in the high bits.
pub open spec fn pack4(a: u32, r: u32, g: u32, b: u32) -> u32 {
    (a << 24) | (r << 16) | (g << 8) | b
}

/// `s + d * un / 256`, held to a byte: a premultiplied source channel over a
/// destination channel.
pub open spec fn over_channel(s: u32, d: u32, un: u32) -> u32 {
    let v = (d * un) / 256 + s;
    if v > 255 {
        255
    } else {
        v as u32
    }
}

/// `(s * a + d * (255 - a)) / 255`, rounded up: two channels mixed in the
/// proportion `a` to `255 - a`.
pub open spec fn mix_channel(s: u32, d: u32, a: u32) -> u32 {
    ((s * a + d * (255 - a) + 254) / 255) as u32
}

pub(crate) proof fn lemma_even_and_odd_bytes(w: u32)
    by (bit_vector)
    ensures
        w & 0xFF00FF == (w & 0xFF) + ((w >> 16) & 0xFF) * 65536,
        (w >> 8) & 0xFF00FF == ((w >> 8) & 0xFF) + ((w >> 24) & 0xFF) * 65536,
        ((w >> 8) | 0xFF0000) & 0xFF00FF == ((w >> 8) & 0xFF) + 0xFF * 65536,
        (w >> 0u32) & 0xFF == w & 0xFF,
        w & 0xFF <= 0xFF,
        (w >> 8) & 0xFF <= 0xFF,
        (w >> 16) & 0xFF <= 0xFF,
        (w >> 24) & 0xFF <= 0xFF,
        (w >> 24) & 0xFF == w >> 24,
{
}

/// Two channels multiplied at once do not meet.
proof fn lemma_two_products(x: u32, y: u32, u: u32)
    requires
        x <= 255,
        y <= 255,
        u <= 255,
    ensures
        (x + y * 65536) * u == x * u + (y * u) * 65536,
        0 <= x * u <= 65025,
        0 <= y * u <= 65025,
{
    assert((x + y * 65536) * u == x * u + (y * u) * 65536) by (nonlinear_arith);
    assert(0 <= x * u <= 65025 && 0 <= y * u <= 65025) by (nonlinear_arith)
        requires
            x <= 255,
            y <= 255,
            u <= 255,
    ;
}

proof fn lemma_over_lanes(s: u32, p: u32, q: u32, p0: u32, p1: u32, q0: u32, q1: u32)
    by (bit_vector)
    requires
        p0 <= 65025,
        p1 <= 65025,
        q0 <= 65025,
        q1 <= 65025,
        p == p0 + p1 * 65536,
        q == q0 + q1 * 65536,
    ensures
        ((p >> 8) & 0xFF00FF) + (s & 0xFF00FF) <= 0xFFFF_FFFF,
        ((q >> 8) & 0xFF00FF) + ((s >> 8) & 0xFF00FF) <= 0xFFFF_FFFF,
        ({
            let rb: u32 = (((p >> 8) & 0xFF00FF) + (s & 0xFF00FF)) as u32;
            let ag: u32 = (((q >> 8) & 0xFF00FF) + ((s >> 8) & 0xFF00FF)) as u32;
            &&& (rb & 0x1000100) * 0xFF <= 0xFFFF_FFFF
            &&& (ag & 0x1000100) * 0xFF <= 0xFFFF_FFFF
            &&& ((((ag & 0xFF00FF) << 8) | (((ag & 0x1000100) * 0xFF) as u32)) | ((rb & 0xFF00FF)
                | ((((rb & 0x1000100) * 0xFF) as u32) >> 8))) == ((if q1 / 256 + ((s >> 24) & 0xFF)
                > 255 {
                255u32
            } else {
                (q1 / 256 + ((s >> 24) & 0xFF)) as u32
            }) << 24) | ((if p1 / 256 + ((s >> 16) & 0xFF) > 255 {
                255u32
            } else {
                (p1 / 256 + ((s >> 16) & 0xFF)) as u32
            }) << 16) | ((if q0 / 256 + ((s >> 8) & 0xFF) > 255 {
                255u32
            } else {
                (q0 / 256 + ((s >> 8) & 0xFF)) as u32
            }) << 8) | (if p0 / 256 + ((s >> 0) & 0xFF) > 255 {
                255u32
            } else {
                (p0 / 256 + ((s >> 0) & 0xFF)) as u32
            })
        }),
{
}

proof fn lemma_two_quotients(x: u32, y: u32, w: u32)
    by (bit_vector)
    requires
        x <= 65025,
        y <= 65025,
        w == x + y * 65536 + 0xFF00FF,
    ensures
        w >= 65537,
        w + ((((w - 65537) as u32) >> 8) & 0xFF00FF) <= 0xFFFF_FFFF,
        ((((w + ((((w - 65537) as u32) >> 8) & 0xFF00FF)) as u32) >> 8) & 0xFF00FF) == ((x
            + 254) as u32) / 255 + (((y + 254) as u32) / 255) * 65536,
        ((x + 254) as u32) / 255 <= 255,
        ((y + 254) as u32) / 255 <= 255,
{
}

proof fn lemma_interleave(rb: u32, ag: u32, r: u32, g: u32, b: u32, a: u32)
    by (bit_vector)
    requires
        r <= 255,
        g <= 255,
        b <= 255,
        a <= 255,
        rb == b + r * 65536,
        ag == g + a * 65536,
    ensures
        (rb | (ag << 8)) == (a << 24) | (r << 16) | (g << 8) | b,
{
}

// ---- Stateless word rules -------------------------------------------------

/// Rule 18: the sum of the two words.
pub fn addWordwith(sourceWord: u32, destinationWord: u32) -> (r: u32)
    ensures
        r as int == (sourceWord + destinationWord) % 0x1_0000_0000,
{
    sourceWord.wrapping_add(destinationWord)
}

/// Rule 19: the source word less the destination word.
pub fn subWordwith(sourceWord: u32, destinationWord: u32) -> (r: u32)
    ensures
        r as int == (sourceWord - destinationWord) % 0x1_0000_0000,
{
    sourceWord.wrapping_sub(destinationWord)
}

/// A premultiplied ARGB source over a destination, channel by channel.
pub open spec fn alpha_blend_scaled(s: u32, d: u32) -> u32 {
    let un = (0xFF - (s >> 24)) as u32;
    pack4(
        over_channel(channel(s, 24), channel(d, 24), un),
        over_channel(channel(s, 16), channel(d, 16), un),
        over_channel(channel(s, 8), channel(d, 8), un),
        over_channel(channel(s, 0), channel(d, 0), un),
    )
}

/// Rules 34 to 36: a premultiplied source over the destination.
pub fn alphaBlendScaledwith(sourceWord: u32, destinationWord: u32) -> (r: u32)
    ensures
        r == alpha_blend_scaled(sourceWord, destinationWord),
{
    proof {
        lemma_even_and_odd_bytes(sourceWord);
        lemma_even_and_odd_bytes(destinationWord);
    }
    let unAlpha: u32 = 0xFF - (sourceWord >> 24);
    let ghost d = destinationWord;
    proof {
        lemma_two_products(d & 0xFF, (d >> 16) & 0xFF, unAlpha);
        lemma_two_products((d >> 8) & 0xFF, (d >> 24) & 0xFF, unAlpha);
    }
    let rbProduct: u32 = (destinationWord & 16711935) * unAlpha;
    let agProduct: u32 = ((destinationWord >> 8) & 16711935) * unAlpha;
    proof {
        lemma_over_lanes(
            sourceWord,
            rbProduct,
            agProduct,
            ((d & 0xFF) * unAlpha) as u32,
            (((d >> 16) & 0xFF) * unAlpha) as u32,
            (((d >> 8) & 0xFF) * unAlpha) as u32,
            (((d >> 24) & 0xFF) * unAlpha) as u32,
        );
    }
    // red and blue, then alpha and green
    let mut rb: u32 = ((rbProduct >> 8) & 16711935) + (sourceWord & 16711935);
    let mut ag: u32 = ((agProduct >> 8) & 16711935) + ((sourceWord >> 8) & 16711935);
    // saturate whichever carried
    rb = (rb & 16711935) | (((rb & 16777472) * 0xFF) >> 8);
    ag = ((ag & 16711935) << 8) | ((ag & 16777472) * 0xFF);
    ag | rb
}

/// A source mixed into a destination by the source's own alpha. The alpha
/// channel of the source counts as opaque.
pub open spec fn alpha_blend(s: u32, d: u32) -> u32 {
    let alpha = s >> 24;
    if alpha == 0 {
        d
    } else if alpha == 0xFF {
        s
    } else {
        pack4(
            mix_channel(0xFF, channel(d, 24), alpha),
            mix_channel(channel(s, 16), channel(d, 16), alpha),
            mix_channel(channel(s, 8), channel(d, 8), alpha),
            mix_channel(channel(s, 0), channel(d, 0), alpha),
        )
    }
}

/// The four channels of two words mixed in the proportion `a` to `255 - a`.
/// `opaque` takes the alpha channel of the source for 255.
pub fn mixWords(s: u32, d: u32, a: u32, opaque: bool) -> (r: u32)
    requires
        a <= 255,
    ensures
        r == pack4(
            mix_channel(
                if opaque {
                    0xFF
                } else {
                    channel(s, 24)
                },
                channel(d, 24),
                a,
            ),
            mix_channel(channel(s, 16), channel(d, 16), a),
            mix_channel(channel(s, 8), channel(d, 8), a),
            mix_channel(channel(s, 0), channel(d, 0), a),
        ),
{
    proof {
        lemma_even_and_odd_bytes(s);
        lemma_even_and_odd_bytes(d);
    }
    let un: u32 = 0xFF - a;
    let sAG: u32 = if opaque {
        ((s >> 8) | 0xFF0000) & 16711935
    } else {
        (s >> 8) & 16711935
    };
    let ghost sa: u32 = if opaque {
        0xFF
    } else {
        (s >> 24) & 0xFF
    };
    proof {
        lemma_two_products(s & 0xFF, (s >> 16) & 0xFF, a);
        lemma_two_products((s >> 8) & 0xFF, sa, a);
        lemma_two_products(d & 0xFF, (d >> 16) & 0xFF, un);
        lemma_two_products((d >> 8) & 0xFF, (d >> 24) & 0xFF, un);
        lemma_mixed_bound(s & 0xFF, d & 0xFF, a);
        lemma_mixed_bound((s >> 8) & 0xFF, (d >> 8) & 0xFF, a);
        lemma_mixed_bound((s >> 16) & 0xFF, (d >> 16) & 0xFF, a);
        lemma_mixed_bound(sa, (d >> 24) & 0xFF, a);
    }
    let mut blendRB: u32 = (s & 16711935) * a + (d & 16711935) * un + 16711935;
    let mut blendAG: u32 = sAG * a + ((d >> 8) & 16711935) * un + 16711935;
    proof {
        lemma_two_quotients(
            ((s & 0xFF) * a + (d & 0xFF) * un) as u32,
            (((s >> 16) & 0xFF) * a + ((d >> 16) & 0xFF) * un) as u32,
            blendRB,
        );
        lemma_two_quotients(
            (((s >> 8) & 0xFF) * a + ((d >> 8) & 0xFF) * un) as u32,
            (sa * a + ((d >> 24) & 0xFF) * un) as u32,
            blendAG,
        );
    }
    // divide both lanes by 255
    blendRB = ((blendRB + (((blendRB - 65537) >> 8) & 16711935)) >> 8) & 16711935;
    blendAG = ((blendAG + (((blendAG - 65537) >> 8) & 16711935)) >> 8) & 16711935;
    proof {
        lemma_interleave(
            blendRB,
            blendAG,
            mix_channel(channel(s, 16), channel(d, 16), a),
            mix_channel(channel(s, 8), channel(d, 8), a),
            mix_channel(channel(s, 0), channel(d, 0), a),
            mix_channel(sa, channel(d, 24), a),
        );
    }
    blendRB | (blendAG << 8)
}

proof fn lemma_mixed_bound(x: u32, y: u32, a: u32)
    requires
        x <= 255,
        y <= 255,
        a <= 255,
    ensures
        0 <= x * a + y * (255 - a) <= 65025,
{
    assert(0 <= x * a + y * (255 - a) <= 65025) by (nonlinear_arith)
        requires
            x <= 255,
            y <= 255,
            a <= 255,
    ;
}

/// Rule 24: the source mixed in by its alpha byte.
pub fn alphaBlendwith(sourceWord: u32, destinationWord: u32) -> (r: u32)
    ensures
        r == alpha_blend(sourceWord, destinationWord),
{
    proof {
        lemma_even_and_odd_bytes(sourceWord);
    }
    let alpha: u32 = sourceWord >> 24;
    if alpha == 0 {
        return destinationWord;
    }
    if alpha == 0xFF {
        return sourceWord;
    }
    mixWords(sourceWord, destinationWord, alpha, true)
}

// ---- Partitioned words ----------------------------------------------------

/// The bits of field `i` of a word cut into fields of `n` bits, lowest first.
pub open spec fn field_mask(n: int, i: int) -> u32 {
    shl_word(width_mask(n), i * n)
}

/// `f` applied to the first `parts` fields of two words, each field in place.
pub open spec fn map_fields(
    f: spec_fn(u32, u32) -> u32,
    w1: u32,
    w2: u32,
    n: int,
    parts: int,
) -> u32
    decreases parts,
{
    if parts <= 0 {
        0
    } else {
        map_fields(f, w1, w2, n, parts - 1) | f(
            w1 & field_mask(n, parts - 1),
            w2 & field_mask(n, parts - 1),
        )
    }
}

pub open spec fn larger() -> spec_fn(u32, u32) -> u32 {
    |a: u32, b: u32|
        if a > b {
            a
        } else {
            b
        }
}

pub open spec fn smaller() -> spec_fn(u32, u32) -> u32 {
    |a: u32, b: u32|
        if a < b {
            a
        } else {
            b
        }
}

pub open spec fn distance() -> spec_fn(u32, u32) -> u32 {
    |a: u32, b: u32|
        (if a < b {
            b - a
        } else {
            a - b
        }) as u32
}

/// Clears the second value where the first one matches it.
pub open spec fn unless_equal() -> spec_fn(u32, u32) -> u32 {
    |a: u32, b: u32|
        if a == b {
            0
        } else {
            b
        }
}

/// Shifting a field mask by one field gives the next one.
pub(crate) proof fn lemma_next_field(n: int, i: int)
    requires
        0 <= n <= 32,
        0 <= i,
    ensures
        shl_word(field_mask(n, i), n) == field_mask(n, i + 1),
        field_mask(n, 0) == width_mask(n),
{
    crate::bitblt::merge::lemma_shift_pairs(width_mask(n), 0, 0);
    assert((i + 1) * n == i * n + n) by (nonlinear_arith);
    assert(0 <= i * n) by (nonlinear_arith)
        requires
            0 <= i,
            0 <= n,
    ;
    if n < 32 && i * n < 32 {
        crate::bitblt::merge::lemma_shift_pairs(width_mask(n), (i * n) as u32, n as u32);
    } else if n < 32 {
        crate::bitblt::merge::lemma_shift_pairs(0, 0, n as u32);
    }
}

/// Saturating addition of packed components, carried out on whole words: the
/// high bit of each component is taken out, the rest is added, and a component
/// that carried is filled with ones.
pub open spec fn saturating_add(w1: u32, w2: u32, n: int, component: u32, high: u32) -> u32 {
    let h1 = w1 & high;
    let h2 = w2 & high;
    let sum = (w1 ^ h1).wrapping_add(w2 ^ h2);
    let carry = (h1 & h2) | ((h1 | h2) & sum);
    ((sum ^ h1) ^ h2) | shr_word(carry, n - 1).wrapping_mul(component)
}

/// Saturating addition of packed components. `carryOverflowMask` holds the
/// high bit of each component.
pub fn partitionedAddtonBitscomponentMaskcarryOverflowMask(
    word1: u32,
    word2: u32,
    nBits: sqInt,
    componentMask: u32,
    carryOverflowMask: u32,
) -> (r: u32)
    requires
        nBits > sqInt::MIN,
    ensures
        r == saturating_add(word1, word2, nBits as int, componentMask, carryOverflowMask),
{
    // the high bit of each component
    let w1: u32 = word1 & carryOverflowMask;
    let w2: u32 = word2 & carryOverflowMask;
    // without them no component overflows into the next
    let sum: u32 = (word1 ^ w1).wrapping_add(word2 ^ w2);
    let carryOverflow: u32 = (w1 & w2) | ((w1 | w2) & sum);
    ((sum ^ w1) ^ w2) | shr32(carryOverflow, nBits - 1).wrapping_mul(componentMask)
}

/// The mask of field `i` as a machine word. A field of 32 bits is all ones in
/// the machine word too, so no 32-bit word ever fills it.
pub open spec fn wide_field_mask(n: int, i: int) -> sqInt
    decreases i,
{
    if i <= 0 {
        width_mask(n) as i32 as sqInt
    } else {
        shift_long(wide_field_mask(n, i - 1), n)
    }
}

/// The fields of `w2` whose counterpart in `w1` is all ones.
pub open spec fn where_filled(w1: u32, w2: u32, n: int, parts: int) -> u32
    decreases parts,
{
    if parts <= 0 {
        0
    } else {
        let mask = wide_field_mask(n, parts - 1);
        where_filled(w1, w2, n, parts - 1) | (if (w1 as sqInt & mask) == mask {
            (w2 as sqInt & mask) as u32
        } else {
            0
        })
    }
}

/// A field of `word2` passes only where that field of `word1` is all ones.
pub fn partitionedANDtonBitsnPartitions(
    word1: u32,
    word2: u32,
    nBits: sqInt,
    nParts: sqInt,
) -> (r: u32)
    requires
        0 <= nBits <= 32,
    ensures
        r == where_filled(word1, word2, nBits as int, nParts as int),
{
    let mut mask: sqInt = maskFor(nBits) as i32 as sqInt;
    let mut result: u32 = 0;
    let mut i: sqInt = 0;
    while i < nParts
        invariant
            0 <= nBits <= 32,
            0 <= i,
            i <= nParts || i == 0,
            mask == wide_field_mask(nBits as int, i as int),
            result == where_filled(word1, word2, nBits as int, i as int),
        decreases nParts - i,
    {
        let part: u32 = if (word1 as sqInt & mask) == mask {
            (word2 as sqInt & mask) as u32
        } else {
            0
        };
        result = result | part;
        mask = shift_sq(mask, nBits);
        i = i + 1;
    }
    proof {
        if nParts <= 0 {
            assert(where_filled(word1, word2, nBits as int, nParts as int) == 0);
        }
    }
    result
}

/// The larger of the two words, field by field.
pub fn partitionedMaxwithnBitsnPartitions(
    word1: u32,
    word2: u32,
    nBits: sqInt,
    nParts: sqInt,
) -> (r: u32)
    requires
        0 <= nBits <= 32,
    ensures
        r == map_fields(larger(), word1, word2, nBits as int, nParts as int),
{
    let mut mask: u32 = maskFor(nBits);
    let mut result: u32 = 0;
    let mut i: sqInt = 0;
    proof {
        lemma_next_field(nBits as int, 0);
    }
    while i < nParts
        invariant
            0 <= nBits <= 32,
            0 <= i,
            i <= nParts || i == 0,
            mask == field_mask(nBits as int, i as int),
            result == map_fields(larger(), word1, word2, nBits as int, i as int),
        decreases nParts - i,
    {
        let p1: u32 = word1 & mask;
        let p2: u32 = word2 & mask;
        result = result | (if p1 > p2 {
            p1
        } else {
            p2
        });
        proof {
            lemma_next_field(nBits as int, i as int);
        }
        mask = shl32(mask, nBits);
        i = i + 1;
    }
    result
}

/// The smaller of the two words, field by field.
pub fn partitionedMinwithnBitsnPartitions(
    word1: u32,
    word2: u32,
    nBits: sqInt,
    nParts: sqInt,
) -> (r: u32)
    requires
        0 <= nBits <= 32,
    ensures
        r == map_fields(smaller(), word1, word2, nBits as int, nParts as int),
{
    let mut mask: u32 = maskFor(nBits);
    let mut result: u32 = 0;
    let mut i: sqInt = 0;
    proof {
        lemma_next_field(nBits as int, 0);
    }
    while i < nParts
        invariant
            0 <= nBits <= 32,
            0 <= i,
            i <= nParts || i == 0,
            mask == field_mask(nBits as int, i as int),
            result == map_fields(smaller(), word1, word2, nBits as int, i as int),
        decreases nParts - i,
    {
        let p1: u32 = word1 & mask;
        let p2: u32 = word2 & mask;
        result = result | (if p1 < p2 {
            p1
        } else {
            p2
        });
        proof {
            lemma_next_field(nBits as int, i as int);
        }
        mask = shl32(mask, nBits);
        i = i + 1;
    }
    result
}

/// The absolute difference of the two words, field by field.
pub fn partitionedSubfromnBitsnPartitions(
    word1: u32,
    word2: u32,
    nBits: sqInt,
    nParts: sqInt,
) -> (r: u32)
    requires
        0 <= nBits <= 32,
    ensures
        r == map_fields(distance(), word1, word2, nBits as int, nParts as int),
{
    let mut mask: u32 = maskFor(nBits);
    let mut result: u32 = 0;
    let mut i: sqInt = 0;
    proof {
        lemma_next_field(nBits as int, 0);
    }
    while i < nParts
        invariant
            0 <= nBits <= 32,
            0 <= i,
            i <= nParts || i == 0,
            mask == field_mask(nBits as int, i as int),
            result == map_fields(distance(), word1, word2, nBits as int, i as int),
        decreases nParts - i,
    {
        let p1: u32 = word1 & mask;
        let p2: u32 = word2 & mask;
        result = result | (if p1 < p2 {
            p2 - p1
        } else {
            p1 - p2
        });
        proof {
            lemma_next_field(nBits as int, i as int);
        }
        mask = shl32(mask, nBits);
        i = i + 1;
    }
    result
}

/// The product of field `i` of two words as fractions of a full field, before
/// it is moved into place: the high half of `(a + 1) * (b + 1) - 1`.
pub open spec fn field_product(w1: u32, w2: u32, n: int, i: int) -> u32 {
    let mask = width_mask(n);
    let a = (shr_word(w1, i * n) & mask) + 1;
    let b = (shr_word(w2, i * n) & mask) + 1;
    (((a * b - 1) % 0x1_0000_0000) as u32) & shl_word(mask, n)
}

/// The fields of two words multiplied as fractions. One, two or three fields
/// when `parts` says so, four for any other value.
pub open spec fn multiply_fields(w1: u32, w2: u32, n: int, parts: int) -> u32 {
    let one = shr_word(field_product(w1, w2, n, 0), n);
    let two = one | field_product(w1, w2, n, 1);
    let three = two | shl_word(field_product(w1, w2, n, 2), n);
    if parts == 1 {
        one
    } else if parts == 2 {
        two
    } else if parts == 3 {
        three
    } else {
        three | shl_word(field_product(w1, w2, n, 3), 2 * n)
    }
}

/// A masked word is no larger than the word or the mask.
pub(crate) proof fn lemma_masked(x: u32, m: u32)
    by (bit_vector)
    ensures
        ((x as i64) & (m as i32 as i64)) as u32 == x & m,
        x & m <= m,
        x & m <= x,
        x >> 0u32 == x,
{
}

fn fieldProduct(word1: u32, word2: u32, nBits: sqInt, i: sqInt) -> (r: u32)
    requires
        0 <= nBits <= 32,
        0 <= i <= 3,
        nBits < 32 || (word1 < u32::MAX && word2 < u32::MAX),
    ensures
        r == field_product(word1, word2, nBits as int, i as int),
{
    let sMask: u32 = maskFor(nBits);
    let s1: u32 = shr32(word1, i * nBits);
    let s2: u32 = shr32(word2, i * nBits);
    proof {
        lemma_masked(s1, sMask);
        lemma_masked(s2, sMask);
        lemma_masked(word1, sMask);
        lemma_masked(word2, sMask);
    }
    let a: u32 = (s1 & sMask) + 1;
    let b: u32 = (s2 & sMask) + 1;
    a.wrapping_mul(b).wrapping_sub(1) & shl32(sMask, nBits)
}

/// The product of the two words as fractions, field by field.
pub fn partitionedMulwithnBitsnPartitions(
    word1: u32,
    word2: u32,
    nBits: sqInt,
    nParts: sqInt,
) -> (r: u32)
    requires
        0 <= nBits <= 32,
        nBits < 32 || (word1 < u32::MAX && word2 < u32::MAX),
    ensures
        r == multiply_fields(word1, word2, nBits as int, nParts as int),
{
    let mut result: u32 = shr32(fieldProduct(word1, word2, nBits, 0), nBits);
    if nParts == 1 {
        return result;
    }
    result = result | fieldProduct(word1, word2, nBits, 1);
    if nParts == 2 {
        return result;
    }
    result = result | shl32(fieldProduct(word1, word2, nBits, 2), nBits);
    if nParts == 3 {
        return result;
    }
    result | shl32(fieldProduct(word1, word2, nBits, 3), 2 * nBits)
}

// ---- Color depth ----------------------------------------------------------

/// The `i`-th of the three components of a pixel moved from `n_in` bits per
/// component to `n_out`, in its new place; component 0 is the lowest.
pub open spec fn moved_component(pixel: sqInt, n_in: int, n_out: int, i: int) -> sqInt {
    if n_out > n_in {
        let d = n_out - n_in;
        let mask = shift_long(shl_word(1, n_in).wrapping_sub(1) as sqInt, d);
        if i == 0 {
            shift_long(pixel, d) & mask
        } else if i == 1 {
            shift_long(shift_long(pixel, d), d) & shift_long(mask, n_out)
        } else {
            shift_long(shift_long(shift_long(pixel, d), d), d) & shift_long(
                shift_long(mask, n_out),
                n_out,
            )
        }
    } else {
        let d = n_in - n_out;
        let mask = shl_word(1, n_out).wrapping_sub(1) as sqInt;
        if i == 0 {
            shift_long(pixel, -d) & mask
        } else if i == 1 {
            shift_long(shift_long(pixel, -d), -d) & shift_long(mask, n_out)
        } else {
            shift_long(shift_long(shift_long(pixel, -d), -d), -d) & shift_long(
                shift_long(mask, n_out),
                n_out,
            )
        }
    }
}

/// The three moved components together.
pub open spec fn moved_pixel(pixel: sqInt, n_in: int, n_out: int) -> int {
    moved_component(pixel, n_in, n_out, 0) + moved_component(pixel, n_in, n_out, 1)
        + moved_component(pixel, n_in, n_out, 2)
}

/// A pixel repacked from `n_in` to `n_out` bits per component. Fewer bits are
/// had by truncation, and a pixel that is not 0 never becomes 0.
pub open spec fn rgb_map(pixel: sqInt, n_in: int, n_out: int) -> int {
    if n_out > n_in {
        moved_pixel(pixel, n_in, n_out)
    } else if n_out == n_in {
        if n_in == 5 {
            (pixel & 0x7FFF) as int
        } else if n_in == 8 {
            (pixel & 0xFFFFFF) as int
        } else {
            pixel as int
        }
    } else if pixel == 0 {
        0
    } else if moved_pixel(pixel, n_in, n_out) == 0 {
        1
    } else {
        moved_pixel(pixel, n_in, n_out)
    }
}

/// Repacking with these widths stays within a machine word.
pub open spec fn rgb_map_fits(pixel: sqInt, n_in: int, n_out: int) -> bool {
    let low = moved_component(pixel, n_in, n_out, 0) + moved_component(pixel, n_in, n_out, 1);
    n_out == n_in || (sqInt::MIN <= low <= sqInt::MAX && sqInt::MIN <= moved_pixel(
        pixel,
        n_in,
        n_out,
    ) <= sqInt::MAX)
}

/// Repacks a pixel's three color components from `nBitsIn` bits each to
/// `nBitsOut` bits each.
pub fn rgbMapfromto(sourcePixel: sqInt, nBitsIn: sqInt, nBitsOut: sqInt) -> (r: sqInt)
    requires
        sqInt::MIN < nBitsOut - nBitsIn <= sqInt::MAX,
        nBitsOut > sqInt::MIN,
        rgb_map_fits(sourcePixel, nBitsIn as int, nBitsOut as int),
    ensures
        r == rgb_map(sourcePixel, nBitsIn as int, nBitsOut as int),
{
    let d: sqInt = nBitsOut - nBitsIn;
    if d > 0 {
        // more bits: fill with zeros
        let mut mask: sqInt = shl32(1, nBitsIn).wrapping_sub(1) as sqInt;
        let mut srcPix: sqInt = shift_sq(sourcePixel, d);
        mask = shift_sq(mask, d);
        let destPix: sqInt = srcPix & mask;
        mask = shift_sq(mask, nBitsOut);
        srcPix = shift_sq(srcPix, d);
        (destPix + (srcPix & mask)) + (shift_sq(srcPix, d) & shift_sq(mask, nBitsOut))
    } else {
        if d == 0 {
            if nBitsIn == 5 {
                // called with 16 bits, though a pixel has 15
                return sourcePixel & 0x7FFF;
            }
            if nBitsIn == 8 {
                // called with 32 bits, though a pixel has 24
                return sourcePixel & 0xFFFFFF;
            }
            return sourcePixel;
        }
        if sourcePixel == 0 {
            return sourcePixel;
        }
        // fewer bits: truncate
        let mut mask: sqInt = shl32(1, nBitsOut).wrapping_sub(1) as sqInt;
        let mut srcPix: sqInt = shift_sq(sourcePixel, d);
        let mut destPix: sqInt = srcPix & mask;
        mask = shift_sq(mask, nBitsOut);
        srcPix = shift_sq(srcPix, d);
        destPix = (destPix + (srcPix & mask)) + (shift_sq(srcPix, d) & shift_sq(mask, nBitsOut));
        if destPix == 0 {
            return 1;
        }
        destPix
    }
}

/// A 15-bit pixel as 24-bit color, each component in the high bits of its byte.
pub open spec fn widen16(p: u32) -> u32 {
    ((p & 0x1F) << 3) | ((p & 0x3E0) << 6) | ((p & 0x7C00) << 9)
}

/// Expands a 15-bit pixel to 24-bit color.
pub fn rgbMap16To32(sourcePixel: u32) -> (r: u32)
    ensures
        r == widen16(sourcePixel),
{
    ((sourcePixel & 0x1F) << 3) | ((sourcePixel & 0x3E0) << 6) | ((sourcePixel & 0x7C00) << 9)
}

// ---- Dithering ------------------------------------------------------------

/// An 8-bit component as 5 bits: the value its five high bits stand for, one
/// more when the dither value is below the threshold of its three low bits.
pub open spec fn dither_component(byte: u32, dither: int) -> u32 {
    let value = DITHER_VALUES_16[(byte >> 3) as int];
    if dither < DITHER_THRESHOLDS_16[(byte & 7) as int] {
        (value + 1) as u32
    } else {
        value as u32
    }
}

/// The three components of a 24-bit color dithered and packed into 15 bits.
pub open spec fn dither_pixel(w: u32, dither: int) -> u32 {
    dither_component(w & 0xFF, dither) | (dither_component((w >> 8) & 0xFF, dither) << 5) | (
    dither_component((w >> 16) & 0xFF, dither) << 10)
}

proof fn lemma_dither_parts(b: u32)
    by (bit_vector)
    ensures
        b <= 0xFF ==> b >> 3 <= 31,
        b & 7 <= 7,
        b & 0xFF <= 0xFF,
        b <= 0xFF ==> b & 0xFF == b && (b >> 8) & 0xFF == 0 && (b >> 16) & 0xFF == 0,
        0u32 >> 3 == 0,
        0u32 & 7 == 0,
        0u32 << 5 == 0,
        0u32 << 10 == 0,
        b | 0 == b,
{
}

proof fn lemma_five_bits_apart(a: u32, b: u32, c: u32)
    by (bit_vector)
    requires
        a <= 31,
        b <= 31,
        c <= 31,
    ensures
        a | (b << 5) | (c << 10) == (c << 10) + (b << 5) + a,
        a | (b << 5) | (c << 10) <= 0x7FFF,
        (c << 10) <= 0x7C00,
        (b << 5) <= 0x3E0,
{
}

/// Dithered color has 15 bits.
pub(crate) proof fn lemma_dither_pixel(w: u32, dither: int)
    ensures
        dither_pixel(w, dither) <= 0x7FFF,
{
    lemma_dither_parts(w);
    lemma_dither_parts(w >> 8);
    lemma_dither_parts(w >> 16);
    lemma_dither_parts(w & 0xFF);
    lemma_dither_parts((w >> 8) & 0xFF);
    lemma_dither_parts((w >> 16) & 0xFF);
    lemma_five_bits_apart(
        dither_component(w & 0xFF, dither),
        dither_component((w >> 8) & 0xFF, dither),
        dither_component((w >> 16) & 0xFF, dither),
    );
}

fn ditherComponent(byte: u32, dither_value: i32) -> (r: u32)
    requires
        byte <= 0xFF,
    ensures
        r == dither_component(byte, dither_value as int),
        r <= 31,
{
    proof {
        lemma_dither_parts(byte);
    }
    let threshold: i32 = DITHER_THRESHOLDS_16[(byte & 7) as usize];
    let value: i32 = DITHER_VALUES_16[(byte >> 3) as usize];
    if dither_value < threshold {
        (value + 1) as u32
    } else {
        value as u32
    }
}

/// Dithers a 24-bit color to 15 bits, one component at a time.
pub fn expensive_dither32_to16_threshold(src_word: u32, dither_value: i32) -> (r: u32)
    ensures
        r == dither_pixel(src_word, dither_value as int),
        r <= 0x7FFF,
{
    proof {
        lemma_dither_parts(src_word);
        lemma_dither_parts(src_word >> 8);
        lemma_dither_parts(src_word >> 16);
    }
    let low: u32 = ditherComponent(src_word & 0xFF, dither_value);
    let middle: u32 = ditherComponent((src_word >> 8) & 0xFF, dither_value);
    let high: u32 = ditherComponent((src_word >> 16) & 0xFF, dither_value);
    proof {
        lemma_five_bits_apart(low, middle, high);
    }
    low | (middle << 5) | (high << 10)
}

/// One component dithered: entry `(threshold << 8) + byte` of the dither
/// table.
pub fn dither8Lookup(index: usize) -> (r: u8)
    requires
        index < 4096,
    ensures
        r == dither_component((index % 256) as u32, (index / 256) as int),
        r <= 31,
{
    ditherComponent((index % 256) as u32, (index / 256) as i32) as u8
}

/// Dithers a 24-bit color to 15 bits through the dither table.
pub fn dither32To16threshold(srcWord: u32, ditherValue: i32) -> (r: u32)
    requires
        0 <= ditherValue < 16,
    ensures
        r == dither_pixel(srcWord, ditherValue as int),
        r <= 0x7FFF,
{
    proof {
        lemma_dither_parts(srcWord);
        lemma_dither_parts(srcWord >> 8);
        lemma_dither_parts(srcWord >> 16);
    }
    let addThreshold: usize = (ditherValue as usize) * 256;
    let high: u32 = dither8Lookup(addThreshold + ((srcWord >> 16) & 0xFF) as usize) as u32;
    let middle: u32 = dither8Lookup(addThreshold + ((srcWord >> 8) & 0xFF) as usize) as u32;
    let low: u32 = dither8Lookup(addThreshold + (srcWord & 0xFF) as usize) as u32;
    proof {
        lemma_five_bits_apart(low, middle, high);
    }
    (high << 10) + (middle << 5) + low
}

} // verus!
