//! What the component rules do to one component.
//!
//! A word holds pixels, and a pixel of 16 or 32 bits holds color components.
//! The laws here speak of one component of the result: nothing else in the two
//! words takes part in it.
use vstd::prelude::*;

use crate::bitblt::bits::{lemma_moved_bits, lemma_same_bits, lemma_word_bits};
use crate::bitblt::bits::{stream_bit, word_bit};
use crate::bitblt::rules::{distance, field_mask, field_product, larger, map_fields};
use crate::bitblt::rules::{multiply_fields, saturating_add, smaller, unless_equal, where_filled};
use crate::bitblt::rules::wide_field_mask;
use crate::bitblt::merge::lemma_shr_steps;
use crate::bitblt::state::{shl_word, shr_word, width_mask, BitBlt, ALL_ONES};

verus! {

/// The `n` bits of a word from bit `at` on.
pub open spec fn field(w: u32, n: int, at: int) -> u32 {
    (w >> (at as u32)) & width_mask(n)
}

impl BitBlt {
    /// A destination of one of the depths that forms have.
    pub open spec fn plain_depth(self) -> bool {
        &&& self.dest_wf()
        &&& self.destDepth == 1 || self.destDepth == 2 || self.destDepth == 4 || self.destDepth
            == 8 || self.destDepth == 16 || self.destDepth == 32
    }

    /// The bits of one component: those of a whole pixel below 16 bits.
    pub open spec fn component_width(self) -> int {
        if self.destDepth < 16 {
            self.destDepth as int
        } else if self.destDepth == 16 {
            5
        } else {
            8
        }
    }

    /// The components in a word.
    pub open spec fn component_count(self) -> int {
        if self.destDepth < 16 {
            self.destPPW as int
        } else if self.destDepth == 16 {
            6
        } else {
            4
        }
    }

    /// The lowest bit of component `i`. A 16-bit pixel has three components and
    /// a bit to spare.
    pub open spec fn component_place(self, i: int) -> int {
        if self.destDepth == 16 && i >= 3 {
            16 + (i - 3) * 5
        } else {
            i * self.component_width()
        }
    }

    /// Component `i` of a word.
    pub open spec fn component(self, w: u32, i: int) -> u32 {
        field(w, self.component_width(), self.component_place(i))
    }
}

// ---- Saturating addition --------------------------------------------------

/// Two words added lane by lane, as [`saturating_add`] does it.
spec fn lane_sum(a: u32, b: u32, high_at: u32, component: u32, high: u32) -> u32 {
    let sum: u32 = ((a ^ (a & high)) + (b ^ (b & high))) as u32;
    let carry: u32 = ((a & high) & (b & high)) | (((a & high) | (b & high)) & sum);
    ((sum ^ (a & high)) ^ (b & high)) | (((carry >> high_at) * component) as u32)
}

spec fn lane_fits(a: u32, b: u32, high_at: u32, component: u32, high: u32) -> bool {
    let sum: u32 = ((a ^ (a & high)) + (b ^ (b & high))) as u32;
    let carry: u32 = ((a & high) & (b & high)) | (((a & high) | (b & high)) & sum);
    &&& (a ^ (a & high)) + (b ^ (b & high)) <= 0xFFFF_FFFF
    &&& (carry >> high_at) * component <= 0xFFFF_FFFF
}

spec fn lane_held(a: u32, b: u32, r: u32, at: u32, c: u32) -> bool {
    (r >> at) & c == (if ((a >> at) & c) + ((b >> at) & c) > c {
        c
    } else {
        (((a >> at) & c) + ((b >> at) & c)) as u32
    })
}

proof fn lemma_lane_sums(a: u32, b: u32, at: u32)
    by (bit_vector)
    requires
        at < 32,
    ensures
        lane_fits(a, b, 0, 1, 0xFFFF_FFFF),
        lane_held(a, b, lane_sum(a, b, 0, 1, 0xFFFF_FFFF), at, 1),
        lane_fits(a, b, 1, 3, 0xAAAA_AAAA),
        at & 1 == 0 ==> lane_held(a, b, lane_sum(a, b, 1, 3, 0xAAAA_AAAA), at, 3),
        lane_fits(a, b, 3, 15, 0x8888_8888),
        at & 3 == 0 ==> lane_held(a, b, lane_sum(a, b, 3, 15, 0x8888_8888), at, 15),
        lane_fits(a, b, 7, 255, 0x8080_8080),
        at & 7 == 0 ==> lane_held(a, b, lane_sum(a, b, 7, 255, 0x8080_8080), at, 255),
        lane_fits(a & 0x7FFF_7FFF, b & 0x7FFF_7FFF, 4, 31, 0x4210_4210),
        at == 0 || at == 5 || at == 10 || at == 16 || at == 21 || at == 26 ==> lane_held(
            a,
            b,
            lane_sum(a & 0x7FFF_7FFF, b & 0x7FFF_7FFF, 4, 31, 0x4210_4210),
            at,
            31,
        ),
        1u32 << 1 == 2,
        1u32 << 2 == 4,
        1u32 << 4 == 16,
        1u32 << 8 == 256,
        0xFFFF_FFFFu32 << 0 == 0xFFFF_FFFF,
        0x5555_5555u32 << 1 == 0xAAAA_AAAA,
        0x1111_1111u32 << 3 == 0x8888_8888,
        0x0101_0101u32 << 7 == 0x8080_8080,
{
}

proof fn lemma_lane_sum(a: u32, b: u32, n: int, component: u32, high: u32)
    requires
        1 <= n <= 8,
        lane_fits(a, b, (n - 1) as u32, component, high),
    ensures
        saturating_add(a, b, n, component, high) == lane_sum(
            a,
            b,
            (n - 1) as u32,
            component,
            high,
        ),
{
}

/// The place of a component, by depth.
proof fn lemma_places(bb: BitBlt, i: int)
    requires
        bb.plain_depth(),
        0 <= i < bb.component_count(),
    ensures
        0 <= bb.component_place(i),
        bb.component_place(i) + bb.component_width() <= 32,
        bb.destDepth != 16 ==> bb.component_place(i) == i * bb.component_width(),
{
    let n = bb.component_width();
    assert(bb.destPPW * bb.destDepth == 32) by (nonlinear_arith)
        requires
            bb.destPPW == 32int / bb.destDepth as int,
            bb.destDepth == 1 || bb.destDepth == 2 || bb.destDepth == 4 || bb.destDepth == 8
                || bb.destDepth == 16 || bb.destDepth == 32,
    ;
    if bb.destDepth < 16 {
        assert(0 <= i * n && i * n + n <= 32) by (nonlinear_arith)
            requires
                0 <= i < bb.destPPW,
                0 < n,
                bb.destPPW * n == 32,
        ;
    }
}

/// A multiple of a small power of two has no bits below it.
proof fn lemma_multiple(i: int, at: u32, n: int)
    requires
        n == 1 || n == 2 || n == 4 || n == 8,
        0 <= i,
        at == i * n,
    ensures
        n == 2 ==> at & 1 == 0,
        n == 4 ==> at & 3 == 0,
        n == 8 ==> at & 7 == 0,
{
    crate::bitblt::bits::lemma_low_bits(at as i64, n as i64);
    assert(at as int % n == 0) by (nonlinear_arith)
        requires
            at == i * n,
            n > 0,
    ;
    assert((at as i64) & ((n - 1) as i64) == 0);
}

impl BitBlt {
    /// Rule 20 adds component to component, and holds the sum to the most that a
    /// component can be.
    pub proof fn lemma_add_saturates(self, s: u32, d: u32, i: int)
        requires
            self.plain_depth(),
            0 <= i < self.component_count(),
        ensures
            self.component(self.add_components(s, d), i) == if self.component(s, i)
                + self.component(d, i) > width_mask(self.component_width()) {
                width_mask(self.component_width()) as int
            } else {
                self.component(s, i) + self.component(d, i)
            },
    {
        let n = self.component_width();
        lemma_places(self, i);
        let at = self.component_place(i) as u32;
        lemma_lane_sums(s, d, at);
        if self.destDepth == 16 {
            lemma_lane_sum(s & 0x7FFF_7FFF, d & 0x7FFF_7FFF, 5, 31, 0x4210_4210);
        } else {
            lemma_multiple(i, at, n);
            assert(shl_word(1, n).wrapping_sub(1) == width_mask(n));
            if n == 1 {
                assert(0xFFFF_FFFFu32 / 1 == 0xFFFF_FFFF);
                lemma_lane_sum(s, d, 1, 1, 0xFFFF_FFFF);
            } else if n == 2 {
                assert(0xFFFF_FFFFu32 / 3 == 0x5555_5555);
                lemma_lane_sum(s, d, 2, 3, 0xAAAA_AAAA);
            } else if n == 4 {
                assert(0xFFFF_FFFFu32 / 15 == 0x1111_1111);
                lemma_lane_sum(s, d, 4, 15, 0x8888_8888);
            } else {
                assert(0xFFFF_FFFFu32 / 255 == 0x0101_0101);
                lemma_lane_sum(s, d, 8, 255, 0x8080_8080);
            }
        }
    }
}

// ---- Field by field -------------------------------------------------------

/// The bits of a field of `n` bits, for the widths that components and small
/// pixels have.
spec fn width_bits(n: u32, c: u32) -> bool {
    ||| n == 1 && c == 1
    ||| n == 2 && c == 3
    ||| n == 4 && c == 15
    ||| n == 5 && c == 31
    ||| n == 8 && c == 255
    ||| n == 16 && c == 65535
}

/// Fields that are apart share no bit, and a field keeps its order in place.
proof fn lemma_field_bits(a: u32, b: u32, n: u32, c: u32, k: u32, l: u32)
    by (bit_vector)
    requires
        width_bits(n, c),
        k + n <= 32,
        l + n <= 32,
    ensures
        k + n <= l || l + n <= k ==> (c << k) & (c << l) == 0,
        (a & (c << k)) >> k == (a >> k) & c,
        0u32 >> k == 0,
        ((a & (c << k)) > (b & (c << k))) == ((a >> k) & c > (b >> k) & c),
        ((a & (c << k)) < (b & (c << k))) == ((a >> k) & c < (b >> k) & c),
        (a & (c << k)) >= (b & (c << k)) ==> ({
            let rest: u32 = ((a & (c << k)) - (b & (c << k))) as u32;
            &&& rest & (c << k) == rest
            &&& rest >> k == ((a >> k) & c) - ((b >> k) & c)
        }),
{
}

/// How a field is taken out of two words that were put together.
proof fn lemma_joined(x: u32, y: u32, m: u32, p: u32)
    by (bit_vector)
    ensures
        (x | y) & m == (x & m) | (y & m),
        x | 0 == x,
        0 | x == x,
        0 & m == 0,
        (x & m) & m == x & m,
        y & p == y && p & m == 0 ==> y & m == 0,
        m & p == p & m,
        (x >> 0) & 0xFFFF_FFFF == x,
        p < 1 ==> word_bit(1, p),
        p < 2 ==> word_bit(3, p),
        p < 4 ==> word_bit(15, p),
        p < 8 ==> word_bit(255, p),
        p < 16 ==> word_bit(65535, p),
{
}

/// Of a word made of fields, each field is what became of that field, and
/// bits of no field are 0.
proof fn lemma_map_fields(
    f: spec_fn(u32, u32) -> u32,
    w1: u32,
    w2: u32,
    n: int,
    parts: int,
    i: int,
    m: u32,
)
    requires
        0 <= parts,
        parts * n <= 32,
        n == 1 || n == 2 || n == 4 || n == 5 || n == 8 || n == 16,
        forall|j: int|
            0 <= j < parts ==> ({
                let r = f(w1 & #[trigger] field_mask(n, j), w2 & field_mask(n, j));
                r & field_mask(n, j) == r
            }),
        0 <= i < parts ==> m == field_mask(n, i),
        !(0 <= i < parts) ==> forall|j: int|
            0 <= j < parts ==> #[trigger] field_mask(n, j) & m == 0,
    ensures
        map_fields(f, w1, w2, n, parts) & m == if 0 <= i < parts {
            f(w1 & m, w2 & m)
        } else {
            0
        },
    decreases parts,
{
    lemma_joined(0, 0, m, 0);
    if parts > 0 {
        let top = parts - 1;
        let rest = map_fields(f, w1, w2, n, top);
        let last = f(w1 & field_mask(n, top), w2 & field_mask(n, top));
        assert(top * n + n == parts * n) by (nonlinear_arith)
            requires
                top == parts - 1,
        ;
        assert(0 <= top * n) by (nonlinear_arith)
            requires
                0 <= top,
                0 < n,
        ;
        assert forall|j: int| 0 <= j < top implies #[trigger] field_mask(n, j) & field_mask(n, top)
            == 0 by {
            assert(0 <= j * n && j * n + n <= top * n) by (nonlinear_arith)
                requires
                    0 <= j < top,
                    0 < n,
            ;
            lemma_field_bits(0, 0, n as u32, width_mask(n), (j * n) as u32, (top * n) as u32);
        }
        lemma_joined(rest, last, m, field_mask(n, top));
        if i == top {
            lemma_map_fields(f, w1, w2, n, top, -1, m);
        } else {
            if 0 <= i < top {
                lemma_joined(0, 0, field_mask(n, top), field_mask(n, i));
            }
            lemma_map_fields(f, w1, w2, n, top, i, m);
        }
        lemma_joined(rest & m, last, m, m);
        lemma_joined(last, rest & m, m, m);
    }
}

/// Two 15-bit pixels in one word.
proof fn lemma_halves(lo: u32, hi: u32, w: u32, k: u32)
    by (bit_vector)
    requires
        lo & 0xFFFF_8000 == 0,
        hi & 0xFFFF_8000 == 0,
        k == 0 || k == 5 || k == 10,
    ensures
        lo + (hi << 16) <= 0xFFFF_FFFF,
        (((lo + (hi << 16)) as u32) >> k) & 31 == (lo >> k) & 31,
        (((lo + (hi << 16)) as u32) >> ((16 + k) as u32)) & 31 == (hi >> k) & 31,
        (w >> 16) >> k == w >> ((16 + k) as u32),
        (31u32 << k) & 0xFFFF_8000 == 0,
{
}

/// `f` of two fields in place is `f` of the two fields, in that place.
spec fn carries(f: spec_fn(u32, u32) -> u32, w1: u32, w2: u32, n: u32, k: u32) -> bool {
    let c = width_mask(n as int);
    let r = f(w1 & (c << k), w2 & (c << k));
    width_bits(n, c) && k + n <= 32 ==> {
        &&& r & (c << k) == r
        &&& r >> k == f((w1 >> k) & c, (w2 >> k) & c)
    }
}

proof fn lemma_carried_field(
    f: spec_fn(u32, u32) -> u32,
    w1: u32,
    w2: u32,
    n: int,
    parts: int,
    i: int,
)
    requires
        n == 1 || n == 2 || n == 4 || n == 5 || n == 8 || n == 16,
        0 <= i < parts,
        parts * n <= 32,
        forall|n: u32, k: u32| #[trigger] carries(f, w1, w2, n, k),
    ensures
        0 <= i * n,
        i * n + n <= 32,
        field(map_fields(f, w1, w2, n, parts), n, i * n) == f(
            field(w1, n, i * n),
            field(w2, n, i * n),
        ),
{
    assert forall|j: int| 0 <= j < parts implies 0 <= j * n && j * n + n <= 32 && ({
        let r = f(w1 & #[trigger] field_mask(n, j), w2 & field_mask(n, j));
        r & field_mask(n, j) == r
    }) by {
        assert(0 <= j * n && j * n + n <= parts * n) by (nonlinear_arith)
            requires
                0 <= j < parts,
                0 < n,
        ;
        assert(carries(f, w1, w2, n as u32, (j * n) as u32));
    }
    let m = field_mask(n, i);
    let r = map_fields(f, w1, w2, n, parts);
    lemma_map_fields(f, w1, w2, n, parts, i, m);
    lemma_field_bits(r, 0, n as u32, width_mask(n), (i * n) as u32, 0);
    assert(carries(f, w1, w2, n as u32, (i * n) as u32));
}

/// The fields of a 15-bit pixel fill no other bit.
proof fn lemma_carried_pixel(f: spec_fn(u32, u32) -> u32, w1: u32, w2: u32)
    requires
        forall|n: u32, k: u32| #[trigger] carries(f, w1, w2, n, k),
    ensures
        map_fields(f, w1, w2, 5, 3) & 0xFFFF_8000 == 0,
{
    lemma_joined(0, 0, 0xFFFF_8000, 0);
    assert forall|j: int| 0 <= j < 3 implies ({
        let r = f(w1 & #[trigger] field_mask(5, j), w2 & field_mask(5, j));
        r & field_mask(5, j) == r
    }) && field_mask(5, j) & 0xFFFF_8000 == 0 by {
        assert(carries(f, w1, w2, 5, (j * 5) as u32));
        lemma_halves(0, 0, 0, (j * 5) as u32);
    }
    lemma_map_fields(f, w1, w2, 5, 3, -1, 0xFFFF_8000);
}

impl BitBlt {
    proof fn lemma_by_components(self, f: spec_fn(u32, u32) -> u32, s: u32, d: u32, i: int)
        requires
            self.plain_depth(),
            0 <= i < self.component_count(),
            forall|w1: u32, w2: u32, n: u32, k: u32| #[trigger] carries(f, w1, w2, n, k),
        ensures
            self.component(self.by_components(f, s, d), i) == f(
                self.component(s, i),
                self.component(d, i),
            ),
    {
        lemma_places(self, i);
        if self.destDepth == 16 {
            let lo = map_fields(f, s, d, 5, 3);
            let hi = map_fields(f, s >> 16, d >> 16, 5, 3);
            lemma_carried_pixel(f, s, d);
            lemma_carried_pixel(f, s >> 16, d >> 16);
            let j = if i < 3 {
                i
            } else {
                i - 3
            };
            lemma_carried_field(f, s, d, 5, 3, j);
            lemma_carried_field(f, s >> 16, d >> 16, 5, 3, j);
            lemma_halves(lo, hi, s, (j * 5) as u32);
            lemma_halves(lo, hi, d, (j * 5) as u32);
        } else {
            assert(self.destDepth < 16 ==> self.destPPW * self.destDepth == 32)
                by (nonlinear_arith)
                requires
                    self.destPPW == 32int / self.destDepth as int,
                    self.destDepth == 1 || self.destDepth == 2 || self.destDepth == 4
                        || self.destDepth == 8 || self.destDepth == 32,
            ;
            lemma_carried_field(f, s, d, self.component_width(), self.component_count(), i);
        }
    }

    /// Rule 27 takes the larger of two components, rule 28 the smaller, and
    /// rule 21 how far apart they are.
    pub proof fn lemma_component_rules(self, s: u32, d: u32, i: int)
        requires
            self.plain_depth(),
            0 <= i < self.component_count(),
        ensures
            self.component(self.by_components(larger(), s, d), i) == if self.component(s, i)
                > self.component(d, i) {
                self.component(s, i)
            } else {
                self.component(d, i)
            },
            self.component(self.by_components(smaller(), s, d), i) == if self.component(s, i)
                < self.component(d, i) {
                self.component(s, i)
            } else {
                self.component(d, i)
            },
            self.component(self.by_components(distance(), s, d), i) == if self.component(s, i)
                < self.component(d, i) {
                self.component(d, i) - self.component(s, i)
            } else {
                self.component(s, i) - self.component(d, i)
            },
    {
        assert forall|w1: u32, w2: u32, n: u32, k: u32| #[trigger]
            carries(larger(), w1, w2, n, k) by {
            lemma_carriers(w1, w2, n, k);
        }
        assert forall|w1: u32, w2: u32, n: u32, k: u32| #[trigger]
            carries(smaller(), w1, w2, n, k) by {
            lemma_carriers(w1, w2, n, k);
        }
        assert forall|w1: u32, w2: u32, n: u32, k: u32| #[trigger]
            carries(distance(), w1, w2, n, k) by {
            lemma_carriers(w1, w2, n, k);
        }
        self.lemma_by_components(larger(), s, d, i);
        self.lemma_by_components(smaller(), s, d, i);
        self.lemma_by_components(distance(), s, d, i);
    }
}

proof fn lemma_carriers(w1: u32, w2: u32, n: u32, k: u32)
    ensures
        carries(larger(), w1, w2, n, k),
        carries(smaller(), w1, w2, n, k),
        carries(distance(), w1, w2, n, k),
        carries(unless_equal(), w1, w2, n, k),
{
    let c = width_mask(n as int);
    if width_bits(n, c) && k + n <= 32 {
        lemma_field_bits(w1, w2, n, c, k, 0);
        lemma_field_bits(w2, w1, n, c, k, 0);
        lemma_joined(w1, 0, c << k, 0);
        lemma_joined(w2, 0, c << k, 0);
    }
}

// ---- Multiplication -------------------------------------------------------

/// The high halves of the products of fields, put together.
proof fn lemma_product_lanes(p0: u32, p1: u32, p2: u32, p3: u32)
    by (bit_vector)
    ensures
        ({
            let m = 255u32 << 8;
            let r = (((p0 & m) >> 8) | (p1 & m)) | ((p2 & m) << 8) | ((p3 & m) << 16);
            &&& (r >> 0) & 255 == (p0 >> 8) & 255
            &&& (r >> 8) & 255 == (p1 >> 8) & 255
            &&& (r >> 16) & 255 == (p2 >> 8) & 255
            &&& (r >> 24) & 255 == (p3 >> 8) & 255
        }),
        ({
            let m = 31u32 << 5;
            let r = (((p0 & m) >> 5) | (p1 & m)) | ((p2 & m) << 5);
            &&& (r >> 0) & 31 == (p0 >> 5) & 31
            &&& (r >> 5) & 31 == (p1 >> 5) & 31
            &&& (r >> 10) & 31 == (p2 >> 5) & 31
            &&& r & 0xFFFF_8000 == 0
        }),
        p0 <= 65535 ==> (p0 >> 8) & 255 == p0 / 256,
        p0 <= 1023 ==> (p0 >> 5) & 31 == p0 / 32,
{
}

/// `(a + 1) * (b + 1) - 1`: the product of two fields before its high half is
/// taken.
spec fn raw_product(w1: u32, w2: u32, n: int, i: int) -> u32 {
    ((field(w1, n, i * n) + 1) * (field(w2, n, i * n) + 1) - 1) as u32
}

proof fn lemma_raw_product(w1: u32, w2: u32, n: int, i: int)
    requires
        n == 8 && 0 <= i < 4 || n == 5 && 0 <= i < 3,
    ensures
        field_product(w1, w2, n, i) == raw_product(w1, w2, n, i) & shl_word(width_mask(n), n),
        raw_product(w1, w2, n, i) == (field(w1, n, i * n) + 1) * (field(w2, n, i * n) + 1) - 1,
        raw_product(w1, w2, n, i) <= if n == 8 {
            65535int
        } else {
            1023
        },
{
    let a = field(w1, n, i * n);
    let b = field(w2, n, i * n);
    crate::bitblt::rules::lemma_masked(w1 >> ((i * n) as u32), width_mask(n));
    crate::bitblt::rules::lemma_masked(w2 >> ((i * n) as u32), width_mask(n));
    assert(0 <= (a + 1) * (b + 1) - 1 <= if n == 8 {
        65535int
    } else {
        1023
    }) by (nonlinear_arith)
        requires
            n == 8 && a <= 255 && b <= 255 || n == 5 && a <= 31 && b <= 31,
    ;
}

/// The fields of a product.
proof fn lemma_product_fields(w1: u32, w2: u32, n: int, i: int)
    requires
        n == 8 && 0 <= i < 4 || n == 5 && 0 <= i < 3,
    ensures
        field(
            multiply_fields(
                w1,
                w2,
                n,
                if n == 8 {
                    4
                } else {
                    3
                },
            ),
            n,
            i * n,
        ) == ((field(w1, n, i * n) + 1) * (field(w2, n, i * n) + 1) - 1) / if n == 8 {
            256int
        } else {
            32
        },
        n == 5 ==> multiply_fields(w1, w2, 5, 3) & 0xFFFF_8000 == 0,
{
    lemma_raw_product(w1, w2, n, 0);
    lemma_raw_product(w1, w2, n, 1);
    lemma_raw_product(w1, w2, n, 2);
    if n == 8 {
        lemma_raw_product(w1, w2, n, 3);
    }
    lemma_raw_product(w1, w2, n, i);
    let p0 = raw_product(w1, w2, n, 0);
    let p1 = raw_product(w1, w2, n, 1);
    let p2 = raw_product(w1, w2, n, 2);
    let p3 = raw_product(w1, w2, n, 3);
    lemma_product_lanes(p0, p1, p2, p3);
    lemma_product_lanes(raw_product(w1, w2, n, i), 0, 0, 0);
}

impl BitBlt {
    /// Rule 37 multiplies component by component, each taken as a fraction of
    /// the most it can be. Full intensity leaves the other component alone, and
    /// none leaves none. Pixels below 8 bits are left out: only four of the
    /// pixels of a word take part there.
    pub proof fn lemma_multiply(self, s: u32, d: u32, i: int)
        requires
            self.plain_depth(),
            self.destDepth >= 8,
            0 <= i < self.component_count(),
        ensures
            self.component(self.multiply_components(s, d), i) == ((self.component(s, i) + 1) * (
            self.component(d, i) + 1) - 1) / (width_mask(self.component_width()) + 1),
            self.component(s, i) == width_mask(self.component_width()) ==> self.component(
                self.multiply_components(s, d),
                i,
            ) == self.component(d, i),
            self.component(d, i) == width_mask(self.component_width()) ==> self.component(
                self.multiply_components(s, d),
                i,
            ) == self.component(s, i),
            self.component(s, i) == 0 || self.component(d, i) == 0 ==> self.component(
                self.multiply_components(s, d),
                i,
            ) == 0,
    {
        let a = self.component(s, i);
        let b = self.component(d, i);
        let full = width_mask(self.component_width());
        let r = self.component(self.multiply_components(s, d), i);
        lemma_places(self, i);
        crate::bitblt::rules::lemma_masked(s >> (self.component_place(i) as u32), full);
        crate::bitblt::rules::lemma_masked(d >> (self.component_place(i) as u32), full);
        if self.destDepth == 16 {
            let j = if i < 3 {
                i
            } else {
                i - 3
            };
            let lo = multiply_fields(s, d, 5, 3);
            let hi = multiply_fields(s >> 16, d >> 16, 5, 3);
            lemma_product_fields(s, d, 5, j);
            lemma_product_fields(s >> 16, d >> 16, 5, j);
            lemma_halves(lo, hi, s, (j * 5) as u32);
            lemma_halves(lo, hi, d, (j * 5) as u32);
            assert(r == ((a + 1) * (b + 1) - 1) / 32);
        } else {
            assert(self.destDepth == 8 ==> self.destPPW == 4) by (nonlinear_arith)
                requires
                    self.destPPW == 32int / self.destDepth as int,
            ;
            lemma_product_fields(s, d, 8, i);
            assert(r == ((a + 1) * (b + 1) - 1) / 256);
        }
        assert((full + 1) * (b + 1) - 1 == (full + 1) * b + full) by (nonlinear_arith);
        assert((a + 1) * (full + 1) - 1 == (full + 1) * a + full) by (nonlinear_arith);
        if full == 255 {
            assert((256 * b + 255) / 256 == b && (256 * a + 255) / 256 == a);
        } else {
            assert((32 * b + 31) / 32 == b && (32 * a + 31) / 32 == a);
        }
        assert((0 + 1) * (b + 1) - 1 == b && (a + 1) * (0 + 1) - 1 == a) by (nonlinear_arith);
    }
}

// ---- Whole pixels ---------------------------------------------------------

/// Field masks as machine words.
proof fn lemma_wide_masks(w: u32, n: u32, c: u32, k: u32)
    by (bit_vector)
    requires
        width_bits(n, c),
        k + n <= 32,
    ensures
        c as i32 as i64 == c,
        k + n + n <= 32 ==> ((((c << k) as i64) as u64) << (n as u64)) as i64 == (c << ((k
            + n) as u32)) as i64,
        c << 0 == c,
        ((!w) & (c << k) == c << k) == (w & (c << k) == 0),
        0xFFFF_FFFFu32 as i32 as i64 == -1,
        (w as i64) & (0xFFFF_FFFFu32 as i32 as i64) != -1,
{
}

proof fn lemma_wide_field_mask(n: int, i: int)
    requires
        n == 1 || n == 2 || n == 4 || n == 8 || n == 16,
        0 <= i,
        i * n + n <= 32,
    ensures
        0 <= i * n,
        wide_field_mask(n, i) == field_mask(n, i),
    decreases i,
{
    let c = width_mask(n);
    if i == 0 {
        lemma_wide_masks(0, n as u32, c, 0);
    } else {
        assert(i * n == (i - 1) * n + n && 0 <= (i - 1) * n) by (nonlinear_arith)
            requires
                1 <= i,
                0 < n,
        ;
        lemma_wide_field_mask(n, i - 1);
        lemma_wide_masks(0, n as u32, c, ((i - 1) * n) as u32);
    }
}

/// The pixels that pass where the source has none.
proof fn lemma_where_filled(s: u32, d: u32, n: int, parts: int, i: int)
    requires
        n == 1 || n == 2 || n == 4 || n == 8 || n == 16,
        0 <= parts,
        parts * n <= 32,
        0 <= i,
        i * n + n <= 32,
    ensures
        where_filled(!s, d, n, parts) & field_mask(n, i) == if i < parts && s & field_mask(n, i)
            == 0 {
            d & field_mask(n, i)
        } else {
            0
        },
    decreases parts,
{
    let m = field_mask(n, i);
    lemma_joined(0, 0, m, 0);
    if parts > 0 {
        let top = parts - 1;
        let last = field_mask(n, top);
        assert(top * n + n == parts * n && 0 <= top * n && 0 <= i * n) by (nonlinear_arith)
            requires
                top == parts - 1,
                0 <= top,
                0 <= i,
                0 < n,
        ;
        lemma_where_filled(s, d, n, top, i);
        lemma_wide_field_mask(n, top);
        lemma_wide_masks(s, n as u32, width_mask(n), (top * n) as u32);
        if i != top {
            assert(i * n + n <= top * n || top * n + n <= i * n) by (nonlinear_arith)
                requires
                    i != top,
                    0 < n,
            ;
            lemma_field_bits(0, 0, n as u32, width_mask(n), (top * n) as u32, (i * n) as u32);
        }
        let rest = where_filled(!s, d, n, top);
        let part = if s & last == 0 {
            d & last
        } else {
            0
        };
        assert(((!s) as i64) & (last as i64) == ((!s) & last) as i64);
        assert((d as i64) & (last as i64) == (d & last) as i64);
        assert(where_filled(!s, d, n, parts) == rest | part);
        lemma_joined(rest, part, m, last);
        lemma_joined(d, 0, last, 0);
        lemma_joined(rest & m, part & m, m, m);
        lemma_joined(part & m, rest & m, m, m);
    }
}

impl BitBlt {
    /// Rule 25 paints the source pixels that are not 0 and leaves the others as
    /// they were.
    pub proof fn lemma_paint(self, s: u32, d: u32, i: int)
        requires
            self.plain_depth(),
            0 <= i < self.destPPW,
        ensures
            field(self.paint(s, d), self.destDepth as int, i * self.destDepth) == if field(
                s,
                self.destDepth as int,
                i * self.destDepth,
            ) == 0 {
                field(d, self.destDepth as int, i * self.destDepth)
            } else {
                field(s, self.destDepth as int, i * self.destDepth)
            },
    {
        let n = self.destDepth as int;
        lemma_pixel_places(self, i);
        let at = (i * n) as u32;
        if n == 32 {
            lemma_wide_masks(!s, 1, 1, 0);
            lemma_joined(s, 0, 0, 0);
            lemma_joined(0, 0, 0, 0);
            assert(self.destPPW == 1) by (nonlinear_arith)
                requires
                    self.destPPW * self.destDepth == 32,
                    self.destDepth == 32,
            ;
            assert(where_filled(!s, d, 32, 0) == 0);
            assert(wide_field_mask(32, 0) == -1);
            assert(where_filled(!s, d, 32, 1) == 0);
            lemma_all_bits(s);
        } else {
            let m = field_mask(n, i);
            let filled = where_filled(!s, d, n, self.destPPW as int);
            lemma_where_filled(s, d, n, self.destPPW as int, i);
            lemma_joined(s, filled, m, m);
            lemma_joined(s & m, filled & m, m, m);
            lemma_joined(filled & m, s & m, m, m);
            lemma_field_bits(s, 0, n as u32, width_mask(n), at, 0);
            lemma_field_bits(d, 0, n as u32, width_mask(n), at, 0);
            lemma_field_bits(self.paint(s, d), 0, n as u32, width_mask(n), at, 0);
            lemma_joined(0, 0, m, 0);
        }
    }

    /// Rule 26 keeps the destination pixels where the source is 0 and clears
    /// the others, below 32 bits.
    pub proof fn lemma_mask(self, s: u32, d: u32, i: int)
        requires
            self.plain_depth(),
            self.destDepth < 32,
            0 <= i < self.destPPW,
        ensures
            field(
                where_filled(!s, d, self.destDepth as int, self.destPPW as int),
                self.destDepth as int,
                i * self.destDepth,
            ) == if field(s, self.destDepth as int, i * self.destDepth) == 0 {
                field(d, self.destDepth as int, i * self.destDepth)
            } else {
                0
            },
    {
        let n = self.destDepth as int;
        lemma_pixel_places(self, i);
        let at = (i * n) as u32;
        let filled = where_filled(!s, d, n, self.destPPW as int);
        lemma_where_filled(s, d, n, self.destPPW as int, i);
        lemma_field_bits(s, 0, n as u32, width_mask(n), at, 0);
        lemma_field_bits(d, 0, n as u32, width_mask(n), at, 0);
        lemma_field_bits(filled, 0, n as u32, width_mask(n), at, 0);
        lemma_joined(0, 0, field_mask(n, i), 0);
    }

    /// Rule 39 clears the destination pixels that equal the source pixel, and
    /// no others.
    pub proof fn lemma_clear_equal(self, s: u32, d: u32, i: int)
        requires
            self.plain_depth(),
            0 <= i < self.destPPW,
        ensures
            field(self.clear_equal(s, d), self.destDepth as int, i * self.destDepth) == if field(
                s,
                self.destDepth as int,
                i * self.destDepth,
            ) == field(d, self.destDepth as int, i * self.destDepth) {
                0
            } else {
                field(d, self.destDepth as int, i * self.destDepth)
            },
    {
        let n = self.destDepth as int;
        lemma_pixel_places(self, i);
        if n == 32 {
            lemma_all_bits(s);
            lemma_all_bits(d);
            lemma_all_bits(0);
        } else {
            assert forall|n: u32, k: u32| #[trigger] carries(unless_equal(), s, d, n, k) by {
                lemma_carriers(s, d, n, k);
            }
            lemma_carried_field(unless_equal(), s, d, n, self.destPPW as int, i);
        }
    }
}

proof fn lemma_pixel_places(bb: BitBlt, i: int)
    requires
        bb.plain_depth(),
        0 <= i < bb.destPPW,
    ensures
        bb.destPPW * bb.destDepth == 32,
        0 <= i * bb.destDepth,
        i * bb.destDepth + bb.destDepth <= 32,
{
    assert(bb.destPPW * bb.destDepth == 32) by (nonlinear_arith)
        requires
            bb.destPPW == 32int / bb.destDepth as int,
            bb.destDepth == 1 || bb.destDepth == 2 || bb.destDepth == 4 || bb.destDepth == 8
                || bb.destDepth == 16 || bb.destDepth == 32,
    ;
    assert(0 <= i * bb.destDepth && i * bb.destDepth + bb.destDepth <= 32) by (nonlinear_arith)
        requires
            0 <= i < bb.destPPW,
            0 < bb.destDepth,
            bb.destPPW * bb.destDepth == 32,
    ;
}

/// A word is its one field of 32 bits.
proof fn lemma_all_bits(w: u32)
    ensures
        field(w, 32, 0) == w,
{
    lemma_joined(w, 0, 0, 0);
}

// ---- Reversal -------------------------------------------------------------

/// Two pixels exchanged, and where the pixels of a word are found.
proof fn lemma_exchanged(w: u32, x: u32, y: u32, n: u32, c: u32, a: u32, b: u32, p: u32)
    by (bit_vector)
    requires
        width_bits(n, c),
        a + b + n == 32,
        a + n <= b,
        p + n <= 32,
        p == a || p == b || ((p + n <= a || a + n <= p) && (p + n <= b || b + n <= p)),
    ensures
        ({
            let by = (b - a) as u32;
            let pair = ((w & (c << a)) << by) | ((w & ((c << ((32 - n) as u32)) >> a)) >> by);
            (pair >> p) & c == (if p == b {
                (w >> a) & c
            } else if p == a {
                (w >> b) & c
            } else {
                0
            })
        }),
        ((x | y) >> p) & c == ((x >> p) & c) | ((y >> p) & c),
        1u32 << n == c + 1,
{
}

proof fn lemma_swapped_pairs(w: u32, n: int, ppw: int, q: int, j: int)
    requires
        n == 1 || n == 2 || n == 4 || n == 8 || n == 16,
        ppw * n == 32,
        0 <= q <= ppw / 2,
        0 <= j < ppw,
    ensures
        field(BitBlt::swapped_pairs(w, n, ppw, q), n, j * n) == if j < q || ppw - 1 - j < q {
            field(w, n, (ppw - 1 - j) * n)
        } else {
            0
        },
    decreases q,
{
    let c = width_mask(n);
    assert(0 <= j * n && j * n + n <= 32) by (nonlinear_arith)
        requires
            0 <= j < ppw,
            0 < n,
            ppw * n == 32,
    ;
    let p = (j * n) as u32;
    lemma_field_bits(0, 0, n as u32, c, p, 0);
    lemma_joined(0, 0, c, 0);
    if q > 0 {
        let k = q - 1;
        lemma_swapped_pairs(w, n, ppw, k, j);
        assert((ppw - 1) * n == 32 - n && 0 <= k * n && 2 * k * n == 2 * (k * n) && k * n + k * n + n
            + n <= 32 && (ppw - 1 - k) * n == 32 - n - k * n && (ppw - 1 - j) * n == 32 - n - j * n)
            by (nonlinear_arith)
            requires
                ppw * n == 32,
                0 < n,
                0 <= k,
                2 * k + 2 <= ppw,
        ;
        let a = (k * n) as u32;
        let b = (32 - n - k * n) as u32;
        assert(j != k ==> j * n + n <= k * n || k * n + n <= j * n) by (nonlinear_arith)
            requires
                0 < n,
        ;
        assert(j != ppw - 1 - k ==> j * n + n <= 32 - n - k * n || 32 - n - k * n + n <= j * n)
            by (nonlinear_arith)
            requires
                0 < n,
                ppw * n == 32,
        ;
        assert(j == ppw - 1 - k ==> j * n == 32 - n - k * n) by (nonlinear_arith)
            requires
                ppw * n == 32,
        ;
        let rest = BitBlt::swapped_pairs(w, n, ppw, k);
        let pair = BitBlt::swapped_pair(w, n, ppw, k);
        lemma_exchanged(w, rest, pair, n as u32, c, a, b, p);
        assert(shl_word(1, n).wrapping_sub(1) == c);
        lemma_joined((rest >> p) & c, 0, 0, 0);
        lemma_joined((pair >> p) & c, 0, 0, 0);
        assert((pair >> p) & c == if j == k || ppw - 1 - j == k {
            field(w, n, (ppw - 1 - j) * n)
        } else {
            0
        });
    }
}

impl BitBlt {
    /// Rule 38 puts the pixels of a word in the opposite order.
    pub proof fn lemma_reversed(self, w: u32, i: int)
        requires
            self.plain_depth(),
            0 <= i < self.destPPW,
        ensures
            field(self.reversed_pixels(w), self.destDepth as int, i * self.destDepth) == field(
                w,
                self.destDepth as int,
                (self.destPPW - 1 - i) * self.destDepth,
            ),
    {
        let n = self.destDepth as int;
        lemma_pixel_places(self, i);
        if self.destPPW != 1 {
            assert(n != 32) by (nonlinear_arith)
                requires
                    self.destPPW * n == 32,
                    self.destPPW != 1,
            ;
            assert(self.destPPW as int % 2 == 0) by (nonlinear_arith)
                requires
                    self.destPPW == 32int / n,
                    n == 1 || n == 2 || n == 4 || n == 8 || n == 16,
            ;
            lemma_swapped_pairs(w, n, self.destPPW as int, self.destPPW as int / 2, i);
        }
    }

    /// Rule 38 twice gives the word back.
    pub proof fn lemma_reversed_twice(self, w: u32)
        requires
            self.plain_depth(),
        ensures
            self.reversed_pixels(self.reversed_pixels(w)) == w,
    {
        let r = self.reversed_pixels(w);
        let rr = self.reversed_pixels(r);
        let n = self.destDepth as int;
        if self.destPPW != 1 {
            assert forall|t: int| 0 <= t < 32 implies #[trigger] stream_bit(false, rr, t)
                == stream_bit(false, w, t) by {
                let i = t / n;
                assert(0 <= i && i * n <= t && t < i * n + n && t - i * n == t % n)
                    by (nonlinear_arith)
                    requires
                        i == t / n,
                        0 <= t,
                        0 < n,
                ;
                assert(i < self.destPPW) by (nonlinear_arith)
                    requires
                        i * n <= t < 32,
                        0 < n,
                        self.destPPW == 32int / n,
                        n == 1 || n == 2 || n == 4 || n == 8 || n == 16 || n == 32,
                ;
                lemma_pixel_places(self, i);
                lemma_pixel_places(self, self.destPPW - 1 - i);
                self.lemma_reversed(w, self.destPPW - 1 - i);
                self.lemma_reversed(r, i);
                assert(field(rr, n, i * n) == field(w, n, i * n));
                lemma_field_bit(rr, n, i * n, t - i * n);
                lemma_field_bit(w, n, i * n, t - i * n);
            }
            lemma_same_bits(false, rr, w);
        }
    }
}

// ---- Counting differences -------------------------------------------------

/// Pixels of which `r` bits are left in the words: what the lowest of them and the
/// rest have to do with the differing bits.
proof fn lemma_pixels_left(s: u32, d: u32, n: u32, p: u32, r: u32, c: u32)
    by (bit_vector)
    requires
        (n == 1 && p == 1u32) || (n == 2 && p == 3u32) || (n == 4 && p == 15u32) || (n == 8 && p
            == 255u32),
        n <= r <= 32,
        c == 32 - r,
        r < 32 ==> s < (1u32 << r) && d < (1u32 << r),
    ensures
        (s ^ d) >> n == (s >> n) ^ (d >> n),
        ((s ^ d) & p != 0) == (s & p != d & p),
        s ^ d == 0 ==> s == d,
        s ^ d == 0 ==> (s >> n) ^ (d >> n) == 0,
        0u32 ^ 0u32 == 0,
        r == n ==> s >> n == 0 && d >> n == 0,
        r > n ==> (s >> n) < (1u32 << ((r - n) as u32)) && (d >> n) < (1u32 << ((r - n) as u32)),
        (0xFFFF_FFFFu32 >> c) & p != 0,
        r > n ==> (0xFFFF_FFFFu32 >> c) >> n == 0xFFFF_FFFFu32 >> ((c + n) as u32),
{
}

/// Bits of pixels of 16 and 32 bits.
proof fn lemma_wide_pixels(s: u32)
    by (bit_vector)
    ensures
        s & 0xFFFF_FFFF == s,
        0xFFFF_FFFFu32 >> 0u32 == 0xFFFF_FFFF,
        (s >> 16) & 0xFFFF == s >> 16,
        (s & 0xFFFF) & (31u32 << 0u32) == s & (31u32 << 0u32),
        (s & 0xFFFF) & (31u32 << 5u32) == s & (31u32 << 5u32),
        (s & 0xFFFF) & (31u32 << 10u32) == s & (31u32 << 10u32),
        0xFFFF_FFFFu32 & 0xFFFF != 0,
        (0xFFFF_FFFFu32 >> 16) & 0xFFFF != 0,
        0u32 & s == 0,
        s < 32 ==> 0u32 >> s == 0,
{
}

impl BitBlt {
    /// Below 16 bits the pixels that differ are those of the exclusive or.
    proof fn lemma_differing_pixels(self, s: u32, d: u32, k: int)
        requires
            self.plain_depth(),
            self.destDepth < 16,
            0 <= k,
            k * self.destDepth <= 32,
            k == 0 ==> s == 0 && d == 0,
            0 < k && k * self.destDepth < 32 ==> s < (1u32 << ((k * self.destDepth) as u32)) && d
                < (1u32 << ((k * self.destDepth) as u32)),
        ensures
            k > 0 ==> self.masked_difference(
                0xFFFF_FFFFu32 >> ((32 - k * self.destDepth) as u32),
                s,
                d,
                k,
            ) == BitBlt::nonzero_pixels(s ^ d, self.destDepth as int),
            k == 0 ==> BitBlt::nonzero_pixels(s ^ d, self.destDepth as int) == 0,
        decreases k,
    {
        let n = self.destDepth as int;
        let p = width_mask(n);
        if k == 0 {
            lemma_pixels_left(0, 0, 1, 1, 32, 0);
        } else {
            assert(n <= k * n && (k - 1) * n == k * n - n) by (nonlinear_arith)
                requires
                    1 <= k,
                    1 <= n,
            ;
            let r = (k * n) as u32;
            let c = (32 - k * n) as u32;
            lemma_pixels_left(s, d, n as u32, p, r, c);
            let (s1, d1) = (shr_word(s, n), shr_word(d, n));
            if k > 1 {
                assert(k * n > n) by (nonlinear_arith)
                    requires
                        2 <= k,
                        1 <= n,
                ;
                assert(32 - (k - 1) * n == c + n);
                assert((r - n) as u32 == ((k - 1) * n) as u32);
            } else {
                assert(r == n);
            }
            self.lemma_differing_pixels(s1, d1, k - 1);
            assert(shr_word(s ^ d, n) == s1 ^ d1);
            let mask = 0xFFFF_FFFFu32 >> c;
            let rest = self.masked_difference(shr_word(mask, n), s1, d1, k - 1);
            assert(rest == BitBlt::nonzero_pixels(s1 ^ d1, n));
            assert(self.masked_difference(mask, s, d, k) == (if s & p == d & p {
                0int
            } else {
                1
            }) + rest);
        }
    }

    /// Inside a full mask rule 32 counts what rule 22 counts.
    pub proof fn lemma_full_mask_counts_all(self, s: u32, d: u32)
        requires
            self.plain_depth(),
        ensures
            self.masked_difference(ALL_ONES, s, d, self.destPPW as int) == self.word_difference(
                s,
                d,
            ),
    {
        crate::bitblt::merge::lemma_ppw_bound(self);
        lemma_pixel_places(self, 0);
        lemma_wide_pixels(s);
        lemma_wide_pixels(d);
        lemma_wide_pixels(ALL_ONES);
        if self.destDepth < 16 {
            self.lemma_differing_pixels(s, d, self.destPPW as int);
        } else if self.destDepth == 16 {
            assert(self.destPPW == 2) by (nonlinear_arith)
                requires
                    self.destPPW * self.destDepth == 32,
                    self.destDepth == 16,
            ;
            reveal_with_fuel(BitBlt::masked_difference, 3);
            reveal_with_fuel(map_fields, 4);
            lemma_wide_pixels(s >> 16);
            lemma_wide_pixels(d >> 16);
            assert(map_fields(distance(), s & 0xFFFF, d & 0xFFFF, 5, 3) == map_fields(
                distance(),
                s,
                d,
                5,
                3,
            ));
        } else {
            assert(self.destPPW == 1) by (nonlinear_arith)
                requires
                    self.destPPW * self.destDepth == 32,
                    self.destDepth == 32,
            ;
            reveal_with_fuel(BitBlt::masked_difference, 2);
        }
    }

    /// Inside an empty mask rule 32 counts nothing.
    pub proof fn lemma_empty_mask_counts_nothing(self, s: u32, d: u32, n: int)
        requires
            self.dest_wf(),
        ensures
            self.masked_difference(0, s, d, n) == 0,
        decreases n,
    {
        if n > 0 {
            let depth = self.destDepth as int;
            lemma_wide_pixels(width_mask(depth));
            lemma_wide_pixels(depth as u32);
            self.lemma_empty_mask_counts_nothing(shr_word(s, depth), shr_word(d, depth), n - 1);
        }
    }

    /// Pixels outside the mask do not matter to rule 32: two pairs of words count
    /// the same where they have the same pixels inside it.
    pub proof fn lemma_only_the_mask_counts(
        self,
        mask: u32,
        s: u32,
        d: u32,
        t: u32,
        e: u32,
        n: int,
    )
        requires
            self.dest_wf(),
            forall|i: int|
                0 <= i < n && #[trigger] self.low_pixel(mask, i) != 0 ==> self.low_pixel(s, i)
                    == self.low_pixel(t, i) && self.low_pixel(d, i) == self.low_pixel(e, i),
        ensures
            self.masked_difference(mask, s, d, n) == self.masked_difference(mask, t, e, n),
        decreases n,
    {
        if n > 0 {
            let depth = self.destDepth as int;
            assert(0 * depth == 0);
            crate::bitblt::rules::lemma_masked(mask, 0);
            crate::bitblt::rules::lemma_masked(s, 0);
            crate::bitblt::rules::lemma_masked(d, 0);
            crate::bitblt::rules::lemma_masked(t, 0);
            crate::bitblt::rules::lemma_masked(e, 0);
            assert(self.low_pixel(mask, 0) == mask & width_mask(depth));
            assert forall|i: int|
                0 <= i < n - 1 && #[trigger] self.low_pixel(shr_word(mask, depth), i)
                    != 0 implies self.low_pixel(shr_word(s, depth), i) == self.low_pixel(
                shr_word(t, depth),
                i,
            ) && self.low_pixel(shr_word(d, depth), i) == self.low_pixel(
                shr_word(e, depth),
                i,
            ) by {
                assert(0 <= i * depth && depth + i * depth == (i + 1) * depth) by (nonlinear_arith)
                    requires
                        0 <= i,
                        0 <= depth,
                ;
                lemma_shr_steps(mask, depth, i * depth);
                lemma_shr_steps(s, depth, i * depth);
                lemma_shr_steps(d, depth, i * depth);
                lemma_shr_steps(t, depth, i * depth);
                lemma_shr_steps(e, depth, i * depth);
                assert(self.low_pixel(mask, i + 1) != 0);
            }
            self.lemma_only_the_mask_counts(
                shr_word(mask, depth),
                shr_word(s, depth),
                shr_word(d, depth),
                shr_word(t, depth),
                shr_word(e, depth),
                n - 1,
            );
        }
    }

    /// Pixel `i` of a word, counted from the low end.
    pub open spec fn low_pixel(self, w: u32, i: int) -> u32 {
        shr_word(w, i * self.destDepth) & width_mask(self.destDepth as int)
    }
}

/// The bits of a field are the bits of its word.
proof fn lemma_field_bit(w: u32, n: int, at: int, q: int)
    requires
        n == 1 || n == 2 || n == 4 || n == 8 || n == 16 || n == 32,
        0 <= at,
        at + n <= 32,
        0 <= q < n,
    ensures
        word_bit(field(w, n, at), q as u32) == word_bit(w, (at + q) as u32),
{
    lemma_moved_bits(w, at as u32, q as u32);
    lemma_word_bits(w >> (at as u32), width_mask(n), q as u32);
    if n < 32 {
        lemma_joined(0, 0, 0, q as u32);
    } else {
        lemma_word_bits(0, 0, q as u32);
    }
}

} // verus!
