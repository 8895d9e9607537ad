//! Rows as streams of bits.
//!
//! A row of a form is a stream of bits, from its left end to its right end.
//! Where the leftmost pixel is in the high bits of a word, the stream runs
//! through each word from the highest bit down, otherwise from the lowest bit
//! up. Either way pixel `x` has the bits from `x` times the depth on.
use vstd::prelude::*;
use crate::prim::sqInt;
use crate::bitblt::memory::word_at;
use crate::bitblt::state::{shift_word, BitBlt, ALL_ONES};
use crate::bitblt::engine::Picture;
use crate::bitblt::merge::lemma_ppw_bound;
use crate::bitblt::setup::quotient;

verus! {

broadcast use crate::bitblt::memory::group_memory;

/// Bit `p` of a word, 0 being the lowest.
pub open spec fn word_bit(w: u32, p: u32) -> bool {
    (w >> p) & 1 == 1
}

/// Bit `t` of a word, 0 being the leftmost in a row.
pub open spec fn stream_bit(msb: bool, w: u32, t: int) -> bool {
    word_bit(
        w,
        (if msb {
            31 - t
        } else {
            t
        }) as u32,
    )
}

/// Bit `b` of the row at an address.
pub open spec fn row_bit(m: Seq<u8>, msb: bool, row: int, b: int) -> bool {
    stream_bit(msb, word_at(m, row + 4 * (b / 32)), b % 32)
}

/// What a rule from 0 to 15 makes of one bit of the source and one of the
/// destination.
pub open spec fn rule_bit(rule: int, s: bool, d: bool) -> bool {
    if rule == 0 {
        false
    } else if rule == 1 {
        s && d
    } else if rule == 2 {
        s && !d
    } else if rule == 3 {
        s
    } else if rule == 4 {
        !s && d
    } else if rule == 6 {
        s != d
    } else if rule == 7 {
        s || d
    } else if rule == 8 {
        !s && !d
    } else if rule == 9 {
        s == d
    } else if rule == 10 {
        !d
    } else if rule == 11 {
        s || !d
    } else if rule == 12 {
        !s
    } else if rule == 13 {
        !s || d
    } else if rule == 14 {
        !s || !d
    } else {
        d
    }
}

/// Words are combined bit by bit.
pub(crate) proof fn lemma_word_bits(a: u32, b: u32, p: u32)
    by (bit_vector)
    requires
        p < 32,
    ensures
        word_bit(a & b, p) == (word_bit(a, p) && word_bit(b, p)),
        word_bit(a | b, p) == (word_bit(a, p) || word_bit(b, p)),
        word_bit(a ^ b, p) == (word_bit(a, p) != word_bit(b, p)),
        word_bit(!a, p) == !word_bit(a, p),
        !word_bit(0, p),
        word_bit(0xFFFF_FFFF, p),
{
}

/// Shifting a word moves its bits.
pub(crate) proof fn lemma_moved_bits(a: u32, n: u32, p: u32)
    by (bit_vector)
    requires
        p < 32,
        n < 32,
    ensures
        word_bit(a << n, p) == (p >= n && word_bit(a, (p - n) as u32)),
        word_bit(a >> n, p) == (p + n < 32 && word_bit(a, (p + n) as u32)),
{
}

/// Under a mask, a rule makes the same of a destination word and of what the
/// mask leaves of it.
pub(crate) proof fn lemma_masked_rules(mask: u32, s: u32, d: u32)
    by (bit_vector)
    ensures
        mask & (s & d) == mask & (s & (d & mask)),
        mask & (s & !d) == mask & (s & !(d & mask)),
        mask & (!s & d) == mask & (!s & (d & mask)),
        mask & (s ^ d) == mask & (s ^ (d & mask)),
        mask & (s | d) == mask & (s | (d & mask)),
        mask & (!s & !d) == mask & (!s & !(d & mask)),
        mask & (!s ^ d) == mask & (!s ^ (d & mask)),
        mask & !d == mask & !(d & mask),
        mask & (s | !d) == mask & (s | !(d & mask)),
        mask & (!s | d) == mask & (!s | (d & mask)),
        mask & (!s | !d) == mask & (!s | !(d & mask)),
        mask & d == mask & (d & mask),
        mask == 0xFFFF_FFFF ==> d & mask == d && (mask & s) | (d & !mask) == s,
        (d & 0xFF00_0000 == 0) == (d < 0x100_0000),
        d < 0x100_0000 ==> d | (s & 0xFF00_0000) == d + (s - s % 0x100_0000),
{
}

/// Words with the same bits are the same.
pub(crate) proof fn lemma_same_bits(msb: bool, a: u32, b: u32)
    requires
        forall|t: int| 0 <= t < 32 ==> #[trigger] stream_bit(msb, a, t) == stream_bit(msb, b, t),
    ensures
        a == b,
{
    lemma_same_from(msb, a, b, 0);
    lemma_one_bit_less(a, b, 0);
}

/// Words with the same bits from `n` on are the same from there on.
proof fn lemma_same_from(msb: bool, a: u32, b: u32, n: u32)
    requires
        n < 32,
        forall|t: int| 0 <= t < 32 ==> #[trigger] stream_bit(msb, a, t) == stream_bit(msb, b, t),
    ensures
        a >> n == b >> n,
    decreases 32 - n,
{
    lemma_one_bit_less(a, b, n);
    let t = if msb {
        31 - n as int
    } else {
        n as int
    };
    assert(stream_bit(msb, a, t) == stream_bit(msb, b, t));
    assert(word_bit(a, n) == word_bit(b, n));
    if n < 31 {
        lemma_same_from(msb, a, b, (n + 1) as u32);
    }
}

proof fn lemma_one_bit_less(a: u32, b: u32, n: u32)
    by (bit_vector)
    requires
        n < 32,
    ensures
        a >> 0u32 == a && b >> 0u32 == b,
        n < 31 && a >> ((n + 1) as u32) == b >> ((n + 1) as u32) && word_bit(a, n) == word_bit(b, n)
            ==> a >> n == b >> n,
        n == 31 && word_bit(a, n) == word_bit(b, n) ==> a >> n == b >> n,
{
}

/// Words are combined bit by bit.
pub(crate) proof fn lemma_stream_bits(msb: bool, a: u32, b: u32, t: int)
    requires
        0 <= t < 32,
    ensures
        stream_bit(msb, a & b, t) == (stream_bit(msb, a, t) && stream_bit(msb, b, t)),
        stream_bit(msb, a | b, t) == (stream_bit(msb, a, t) || stream_bit(msb, b, t)),
        stream_bit(msb, a ^ b, t) == (stream_bit(msb, a, t) != stream_bit(msb, b, t)),
        stream_bit(msb, !a, t) == !stream_bit(msb, a, t),
        !stream_bit(msb, 0, t),
        stream_bit(msb, ALL_ONES, t),
{
    lemma_word_bits(
        a,
        b,
        (if msb {
            31 - t
        } else {
            t
        }) as u32,
    );
}

/// Shifting a word moves its bits along the stream: to the right by `n` for a
/// negative `n`, to the left otherwise, new bits being 0.
pub(crate) proof fn lemma_stream_shift(msb: bool, a: u32, n: int, t: int)
    requires
        0 <= t < 32,
        -32 < n < 32,
    ensures
        stream_bit(
            msb,
            shift_word(
                a,
                if msb {
                    n
                } else {
                    -n
                },
            ),
            t,
        ) == (0 <= t + n < 32 && stream_bit(msb, a, t + n)),
{
    let p = if msb {
        31 - t
    } else {
        t
    };
    let by = if n < 0 {
        -n
    } else {
        n
    };
    lemma_moved_bits(a, by as u32, p as u32);
}

impl BitBlt {
    /// A rule from 0 to 15 works on each bit alone, and touches nothing else.
    pub(crate) proof fn lemma_rule_bits(self, mask: u32, m: Seq<u8>, count: int, s: u32, d: u32, t: int)
        requires
            0 <= self.combinationRule <= 15,
            0 <= t < 32,
        ensures
            self.merge(mask, m, count, s, d).mem == m,
            stream_bit(self.destMSB != 0, self.merge(mask, m, count, s, d).word, t) == rule_bit(
                self.combinationRule as int,
                stream_bit(self.destMSB != 0, s, t),
                stream_bit(self.destMSB != 0, d, t),
            ),
    {
        reveal(BitBlt::merge);
        let msb = self.destMSB != 0;
        lemma_stream_bits(msb, s, d, t);
        lemma_stream_bits(msb, d, s, t);
        lemma_stream_bits(msb, s, !d, t);
        lemma_stream_bits(msb, !s, d, t);
        lemma_stream_bits(msb, !s, !d, t);
    }

    /// Pixels fill their words: the depth divides the word.
    pub open spec fn whole_pixels(self) -> bool {
        &&& self.destDepth == 1 || self.destDepth == 2 || self.destDepth == 4 || self.destDepth == 8
            || self.destDepth == 16 || self.destDepth == 32
        &&& self.dest_wf()
    }

    /// The word, within its row, that the blit starts in.
    pub open spec fn first_word(self) -> int {
        self.dx as int / self.destPPW as int
    }

    /// The word that it ends in.
    pub open spec fn last_word(self) -> int {
        (self.dx + self.bbW - 1) / self.destPPW as int
    }

    /// Whether bit `b` of a row belongs to the columns of the blit.
    pub open spec fn in_columns(self, b: int) -> bool {
        self.dx * self.destDepth <= b < (self.dx + self.bbW) * self.destDepth
    }

    /// The word that rule, mask and source word make of a destination word.
    pub open spec fn ruled(self, mask: u32, s: u32, d: u32) -> u32 {
        let w = self.merge(mask, seq![], 0, s, d).word;
        (mask & w) | (d & !mask)
    }

    /// Under the mask each bit is what the rule makes of it; elsewhere it stays.
    pub(crate) proof fn lemma_ruled_bits(self, mask: u32, s: u32, d: u32, t: int)
        requires
            0 <= self.combinationRule <= 15,
            0 <= t < 32,
        ensures
            stream_bit(self.destMSB != 0, self.ruled(mask, s, d), t) == (if stream_bit(
                self.destMSB != 0,
                mask,
                t,
            ) {
                rule_bit(
                    self.combinationRule as int,
                    stream_bit(self.destMSB != 0, s, t),
                    stream_bit(self.destMSB != 0, d, t),
                )
            } else {
                stream_bit(self.destMSB != 0, d, t)
            }),
    {
        let msb = self.destMSB != 0;
        let w = self.merge(mask, seq![], 0, s, d).word;
        self.lemma_rule_bits(mask, seq![], 0, s, d, t);
        lemma_stream_bits(msb, mask, w, t);
        lemma_stream_bits(msb, mask, d, t);
        lemma_stream_bits(msb, d, !mask, t);
        lemma_stream_bits(msb, mask & w, d & !mask, t);
    }

    /// What the rule makes of two words depends on the words and the depth alone,
    /// not on what is in memory, and it leaves no trace but the word.
    pub open spec fn words_alone(self) -> bool {
        &&& self.combinationRule != 23 && self.combinationRule != 33
        &&& self.combinationRule != 41
    }

    /// The rule does not tell a whole word from its pixels under a mask: it is one
    /// from 0 to 15, or the pixels are whole words.
    pub open spec fn word_by_word(self) -> bool {
        0 <= self.combinationRule <= 15 || (self.words_alone() && self.destDepth == 32)
    }

    /// A rule from 0 to 15 stores just this word, whether or not it sees the
    /// destination outside the mask. So do the others that look at words alone,
    /// where the mask is of all bits.
    pub(crate) proof fn lemma_stores_ruled(self, mask: u32, p: Picture, addr: int, s: u32)
        requires
            0 <= self.combinationRule <= 15 || (self.words_alone() && mask == ALL_ONES),
        ensures
            self.store(mask, p, addr, s).mem == crate::bitblt::memory::with_word(
                p.mem,
                addr,
                self.ruled(mask, s, word_at(p.mem, addr)),
            ),
            self.store_masked(mask, p, addr, s).mem == crate::bitblt::memory::with_word(
                p.mem,
                addr,
                self.ruled(mask, s, word_at(p.mem, addr)),
            ),
    {
        reveal(BitBlt::merge);
        lemma_masked_rules(mask, s, word_at(p.mem, addr));
    }

    // ---- Masks ------------------------------------------------------------

    /// The mask of the last pixels of a word has its last bits set, that of the
    /// first pixels its first bits.
    pub(crate) proof fn lemma_mask_bits(self, n: int, t: int)
        requires
            0 <= t < 32,
            0 <= n * self.destDepth <= 32,
        ensures
            stream_bit(self.destMSB != 0, self.last_pixels_mask(n), t) == (t >= 32 - n
                * self.destDepth),
            stream_bit(self.destMSB != 0, self.first_pixels_mask(n), t) == (t < n * self.destDepth),
    {
        let msb = self.destMSB != 0;
        let c = 32 - n * self.destDepth;
        lemma_stream_bits(msb, 0, 0, t);
        if c < 32 {
            lemma_stream_shift(msb, ALL_ONES, -c, t);
            lemma_stream_shift(msb, ALL_ONES, c, t);
            if 0 <= t - c {
                lemma_stream_bits(msb, 0, 0, t - c);
            }
            if t + c < 32 {
                lemma_stream_bits(msb, 0, 0, t + c);
            }
            crate::bitblt::merge::lemma_shift_zero(ALL_ONES);
        }
    }

    /// The word of a pixel and its place there are quotient and remainder.
    pub(crate) proof fn lemma_pixel_place(self, x: int)
        requires
            self.whole_pixels(),
            0 <= x <= sqInt::MAX,
        ensures
            self.destPPW * self.destDepth == 32,
            (x as sqInt & ((self.destPPW - 1) as sqInt)) == x % (self.destPPW as int),
            self.pixels_from(x) == self.destPPW - x % (self.destPPW as int),
            self.pixels_to(x) == x % (self.destPPW as int) + 1,
            quotient(x, self.destPPW as int) == x / (self.destPPW as int),
            x * self.destDepth == 32 * (x / (self.destPPW as int)) + (x % (self.destPPW as int))
                * self.destDepth,
            0 <= (x % (self.destPPW as int)) * self.destDepth <= 32 - self.destDepth,
    {
        let d = self.destDepth as int;
        let ppw = self.destPPW as int;
        assert(ppw * d == 32 && (ppw == 1 || ppw == 2 || ppw == 4 || ppw == 8 || ppw == 16 || ppw
            == 32)) by (nonlinear_arith)
            requires
                d == 1 || d == 2 || d == 4 || d == 8 || d == 16 || d == 32,
                ppw == 32int / d,
        ;
        lemma_low_bits(x as sqInt, self.destPPW);
        vstd::arithmetic::div_mod::lemma_fundamental_div_mod(x, ppw);
        let q = x / ppw;
        let r = x % ppw;
        assert(x * d == 32 * q + r * d) by (nonlinear_arith)
            requires
                x == ppw * q + r,
                ppw * d == 32,
        ;
        assert(0 <= r * d <= 32 - d) by (nonlinear_arith)
            requires
                0 <= r < ppw,
                ppw * d == 32,
                1 <= d,
        ;
    }

    /// The masks of a row select exactly the columns of the blit, and its words
    /// are those from the first to the last.
    pub(crate) proof fn lemma_row_masks(self, k: int, t: int)
        requires
            self.whole_pixels(),
            0 <= self.dx,
            1 <= self.bbW,
            0 <= k < self.with_dest_masks().row_words(),
            0 <= t < 32,
        ensures
            self.with_dest_masks().row_words() == self.last_word() - self.first_word() + 1,
            self.with_dest_masks().nWords == self.with_dest_masks().row_words(),
            stream_bit(self.destMSB != 0, self.with_dest_masks().word_mask(k), t)
                == self.in_columns(32 * (self.first_word() + k) + t),
    {
        let set = self.with_dest_masks();
        let msb = self.destMSB != 0;
        let ppw = self.destPPW as int;
        let d = self.destDepth as int;
        let first = self.dx as int;
        let last = self.dx + self.bbW - 1;
        self.lemma_pixel_place(first);
        self.lemma_pixel_place(last);
        self.lemma_row_words();
        let start = self.pixels_from(first);
        let end = self.pixels_to(last);
        let a = first % ppw;
        let e = last % ppw;
        assert(start * d == 32 - a * d) by (nonlinear_arith)
            requires
                start == ppw - a,
                ppw * d == 32,
        ;
        assert(end * d == e * d + d) by (nonlinear_arith)
            requires
                end == e + 1,
        ;
        assert((first + self.bbW) * d == last * d + d) by (nonlinear_arith)
            requires
                last == first + self.bbW - 1,
        ;
        self.lemma_mask_bits(start, t);
        self.lemma_mask_bits(end, t);
        let m1 = self.last_pixels_mask(start);
        let m2 = self.first_pixels_mask(end);
        lemma_stream_bits(msb, m1, m2, t);
        lemma_stream_bits(msb, 0, 0, t);
    }

    /// The words of a row are those from the first to the last.
    pub(crate) proof fn lemma_row_words(self)
        requires
            self.whole_pixels(),
            0 <= self.dx,
            1 <= self.bbW,
        ensures
            self.with_dest_masks().row_words() == self.last_word() - self.first_word() + 1,
            self.with_dest_masks().nWords == self.with_dest_masks().row_words(),
            0 <= self.first_word() <= self.last_word(),
            self.bbW < self.pixels_from(self.dx as int) ==> self.first_word() == self.last_word(),
            self.first_word() == self.last_word() ==> self.bbW <= self.pixels_from(self.dx as int),
            self.bbW == self.pixels_from(self.dx as int) ==> (self.dx + self.bbW - 1)
                % (self.destPPW as int) == self.destPPW - 1,
            self.first_word() == self.last_word() && self.bbW < self.pixels_from(self.dx as int)
                ==> (self.dx + self.bbW - 1) % (self.destPPW as int) < self.destPPW - 1,
    {
        let ppw = self.destPPW as int;
        let first = self.dx as int;
        let last = self.dx + self.bbW - 1;
        self.lemma_pixel_place(first);
        self.lemma_pixel_place(last);
        lemma_ppw_bound(self);
        let q = first / ppw;
        let a = first % ppw;
        let z = last / ppw;
        let e = last % ppw;
        vstd::arithmetic::div_mod::lemma_fundamental_div_mod(first, ppw);
        vstd::arithmetic::div_mod::lemma_fundamental_div_mod(last, ppw);
        assert(q <= z && 0 <= q) by (nonlinear_arith)
            requires
                first == ppw * q + a,
                last == ppw * z + e,
                first <= last,
                0 <= first,
                0 <= a < ppw,
                0 <= e < ppw,
        ;
        let n = self.bbW - (ppw - a) + ppw - 1;
        assert(n == ppw * (z - q) + e) by (nonlinear_arith)
            requires
                n == self.bbW - (ppw - a) + ppw - 1,
                last == first + self.bbW - 1,
                first == ppw * q + a,
                last == ppw * z + e,
        ;
        lemma_quotient_of(n, ppw, z - q, e);
        if self.bbW < ppw - a {
            assert(z < q + 1) by (nonlinear_arith)
                requires
                    ppw * z <= last,
                    last < ppw * q + ppw,
                    0 < ppw,
            ;
        }
        if z > q {
            assert(self.bbW >= ppw - a) by (nonlinear_arith)
                requires
                    last == first + self.bbW - 1,
                    first == ppw * q + a,
                    last == ppw * z + e,
                    0 <= e,
                    q + 1 <= z,
                    0 < ppw,
            ;
        }
        if self.bbW == ppw - a {
            assert(z == q && e == ppw - 1) by (nonlinear_arith)
                requires
                    last == first + self.bbW - 1,
                    self.bbW == ppw - a,
                    first == ppw * q + a,
                    last == ppw * z + e,
                    0 <= e < ppw,
                    q <= z,
            ;
        }
    }
}

/// The low bits of an integer are a remainder.
pub(crate) proof fn lemma_low_bits(x: sqInt, n: sqInt)
    requires
        0 <= x,
        n == 1 || n == 2 || n == 4 || n == 8 || n == 16 || n == 32,
    ensures
        x & ((n - 1) as sqInt) == x % n,
{
    assert(0 <= x ==> x & 0 == x % 1 && x & 1 == x % 2 && x & 3 == x % 4 && x & 7 == x % 8 && x & 15
        == x % 16 && x & 31 == x % 32) by (bit_vector);
}

/// What a quotient and a remainder are known by.
pub(crate) proof fn lemma_quotient_of(x: int, d: int, q: int, r: int)
    requires
        0 <= r < d,
        x == d * q + r,
    ensures
        x / d == q,
        x % d == r,
{
    assert(q * d == d * q) by (nonlinear_arith);
    vstd::arithmetic::div_mod::lemma_fundamental_div_mod_converse(x, d, q, r);
}

} // verus!
