//! Warping: blits whose source is a quadrilateral, walked in fixed-point steps.
//!
//! A row of the destination is a walk along a line across the source. Without
//! smoothing each step picks one source pixel; with it, each step averages a
//! square of pixels around it.
use vstd::prelude::*;
use crate::prim::{sqInt, UsqInt};
use crate::bitblt::memory::{long32At, stepped, word_at, Memory};
use crate::bitblt::state::{
    maskFor, shl32, shl_word, shr32, shr_word, width_mask, BitBlt, FIXED_PT1,
};
use crate::bitblt::rules::{lemma_even_and_odd_bytes, rgbMap16To32, widen16};
use crate::bitblt::setup::{lemma_area, quotient};
use crate::bitblt::pixmap::lemma_between;

verus! {

broadcast use crate::bitblt::memory::group_memory;

/// Room for coordinates: sums of a few of them fit a word of the machine.
pub const WARP_LIMIT: sqInt = 0x1000_0000_0000_0000;

/// Room for the steps between them.
pub const STEP_LIMIT: sqInt = 0x2000_0000_0000_0000;

// ---- Steps ----------------------------------------------------------------

/// The step that leads from `x1` to `x2` in `n` steps, rounded away from 0.
pub open spec fn warp_delta(x1: int, x2: int, n: int) -> int {
    if x2 > x1 {
        (x2 - x1 + FIXED_PT1) / (n + 1) + 1
    } else if x2 == x1 {
        0
    } else {
        -((x1 - x2 + FIXED_PT1) / (n + 1) + 1)
    }
}

/// The step that leads from `x1` to `x2` in `n` steps.
pub fn deltaFromtonSteps(x1: sqInt, x2: sqInt, n: sqInt) -> (r: sqInt)
    requires
        n != -1,
        n < sqInt::MAX,
        -sqInt::MAX < x2 - x1 - FIXED_PT1,
        x2 - x1 + FIXED_PT1 < sqInt::MAX,
    ensures
        r == warp_delta(x1 as int, x2 as int, n as int),
{
    proof {
        lemma_division((x2 - x1 + FIXED_PT1) as int, (n + 1) as int);
        lemma_division((x1 - x2 + FIXED_PT1) as int, (n + 1) as int);
    }
    if x2 > x1 {
        ((x2 - x1) + FIXED_PT1) / (n + 1) + 1
    } else if x2 == x1 {
        0
    } else {
        -(((x1 - x2) + FIXED_PT1) / (n + 1) + 1)
    }
}

/// A quotient is no further from 0 than what was divided.
proof fn lemma_division(a: int, b: int)
    requires
        b != 0,
    ensures
        0 <= a ==> -a <= a / b <= a,
{
    if 0 <= a {
        assert(-a <= a / b <= a) by (nonlinear_arith)
            requires
                0 <= a,
                b != 0,
        ;
    }
}

// ---- Pixels of the source -------------------------------------------------

impl BitBlt {
    /// Bits that a source pixel takes up in its word: its depth, down to a power
    /// of two.
    pub open spec fn warp_field(self) -> int {
        let d = self.sourceDepth;
        if d >= 32 {
            32
        } else if d >= 16 {
            16
        } else if d >= 8 {
            8
        } else if d >= 4 {
            4
        } else if d >= 2 {
            2
        } else {
            1
        }
    }

    /// The power of two that [`BitBlt::warp_field`] is.
    pub open spec fn warp_log(self) -> int {
        let d = self.sourceDepth;
        if d >= 32 {
            5
        } else if d >= 16 {
            4
        } else if d >= 8 {
            3
        } else if d >= 4 {
            2
        } else if d >= 2 {
            1
        } else {
            0
        }
    }

    /// Source pixels in a word.
    pub open spec fn warp_per_word(self) -> int {
        32int / self.warp_field()
    }

    /// The shift that brings the source pixel at place `p` of a word down.
    pub open spec fn warp_bit(self, p: int) -> int {
        if self.sourceMSB != 0 {
            32 - (p + 1) * self.warp_field()
        } else {
            p * self.warp_field()
        }
    }

    /// What the two powers of two are for each other.
    proof fn lemma_per_word(self)
        ensures
            self.warp_log() == 0 ==> self.warp_field() == 1 && self.warp_per_word() == 32,
            self.warp_log() == 1 ==> self.warp_field() == 2 && self.warp_per_word() == 16,
            self.warp_log() == 2 ==> self.warp_field() == 4 && self.warp_per_word() == 8,
            self.warp_log() == 3 ==> self.warp_field() == 8 && self.warp_per_word() == 4,
            self.warp_log() == 4 ==> self.warp_field() == 16 && self.warp_per_word() == 2,
            self.warp_log() == 5 ==> self.warp_field() == 32 && self.warp_per_word() == 1,
            0 <= self.warp_log() <= 5,
    {
    }

    /// The registers for picking pixels are set up for the source form.
    pub open spec fn warp_ready(self) -> bool {
        &&& 1 <= self.sourceDepth <= 32
        &&& self.warpSrcShift == self.warp_log()
        &&& self.warpSrcMask == width_mask(self.sourceDepth as int) as i32 as sqInt
        &&& self.warpAlignShift == 5 - self.warp_log()
        &&& self.warpAlignMask == self.warp_per_word() - 1
        &&& forall|i: int|
            0 <= i < self.warp_per_word() ==> self.warpBitShiftTable[i] == self.warp_bit(i)
    }

    /// Entry `i` of the table of bit positions once it is set up.
    pub open spec fn warp_entry(self, i: int) -> i32 {
        if i < self.warp_per_word() {
            self.warp_bit(i) as i32
        } else {
            self.warpBitShiftTable[i]
        }
    }

    /// The registers with those for picking pixels set up.
    pub open spec fn with_warp_setup(self) -> BitBlt {
        BitBlt {
            warpSrcShift: self.warp_log() as sqInt,
            warpSrcMask: width_mask(self.sourceDepth as int) as i32 as sqInt,
            warpAlignShift: (5 - self.warp_log()) as sqInt,
            warpAlignMask: (self.warp_per_word() - 1) as sqInt,
            warpBitShiftTable: [
                self.warp_entry(0),
                self.warp_entry(1),
                self.warp_entry(2),
                self.warp_entry(3),
                self.warp_entry(4),
                self.warp_entry(5),
                self.warp_entry(6),
                self.warp_entry(7),
                self.warp_entry(8),
                self.warp_entry(9),
                self.warp_entry(10),
                self.warp_entry(11),
                self.warp_entry(12),
                self.warp_entry(13),
                self.warp_entry(14),
                self.warp_entry(15),
                self.warp_entry(16),
                self.warp_entry(17),
                self.warp_entry(18),
                self.warp_entry(19),
                self.warp_entry(20),
                self.warp_entry(21),
                self.warp_entry(22),
                self.warp_entry(23),
                self.warp_entry(24),
                self.warp_entry(25),
                self.warp_entry(26),
                self.warp_entry(27),
                self.warp_entry(28),
                self.warp_entry(29),
                self.warp_entry(30),
                self.warp_entry(31),
            ],
            ..self
        }
    }

    /// Bit positions are within a word.
    proof fn lemma_bit_range(self, i: int)
        requires
            0 <= i < self.warp_per_word(),
        ensures
            0 <= self.warp_bit(i) < 32,
    {
        self.lemma_per_word();
        let f = self.warp_field();
        assert(0 <= i * f && (i + 1) * f <= 32 && (i + 1) * f == i * f + f) by (nonlinear_arith)
            requires
                0 <= i < self.warp_per_word(),
                1 <= f,
                self.warp_per_word() * f == 32,
        ;
    }

    /// Sets up the registers for picking pixels.
    pub fn warpLoopSetup(&mut self)
        requires
            1 <= old(self).sourceDepth <= 32,
        ensures
            *final(self) == old(self).with_warp_setup(),
    {
        let ghost bb = *self;
        let mut shift: sqInt = 0;
        let mut field: sqInt = 1;
        let mut words: sqInt = self.sourceDepth as sqInt;
        while words != 1
            invariant
                1 <= bb.sourceDepth <= 32,
                1 <= words <= 32,
                shift == 0 && field == 1 && words == bb.sourceDepth || shift == 1 && field == 2
                    && words == bb.sourceDepth / 2 || shift == 2 && field == 4 && words
                    == bb.sourceDepth / 4 || shift == 3 && field == 8 && words == bb.sourceDepth / 8
                    || shift == 4 && field == 16 && words == bb.sourceDepth / 16 || shift == 5
                    && field == 32 && words == bb.sourceDepth / 32,
            decreases words,
        {
            shift = shift + 1;
            field = field * 2;
            words = words / 2;
        }
        assert(field == bb.warp_field());
        assert(shift == bb.warp_log());
        let perWord: sqInt = 32 / field;
        self.warpSrcShift = shift;
        self.warpSrcMask = maskFor(self.sourceDepth as sqInt) as i32 as sqInt;
        self.warpAlignShift = 5 - shift;
        self.warpAlignMask = perWord - 1;
        let ghost set = *self;
        let mut i: sqInt = 0;
        while i < perWord
            invariant
                bb == *old(self),
                field == bb.warp_field(),
                perWord == bb.warp_per_word(),
                1 <= field <= 32,
                1 <= perWord <= 32,
                perWord * field == 32,
                0 <= i <= perWord,
                set == (BitBlt {
                    warpSrcShift: set.warpSrcShift,
                    warpSrcMask: set.warpSrcMask,
                    warpAlignShift: set.warpAlignShift,
                    warpAlignMask: set.warpAlignMask,
                    ..bb
                }),
                *self == (BitBlt { warpBitShiftTable: self.warpBitShiftTable, ..set }),
                forall|j: int| 0 <= j < i ==> self.warpBitShiftTable[j] == bb.warp_bit(j),
                forall|j: int|
                    i <= j < 32 ==> self.warpBitShiftTable[j] == bb.warpBitShiftTable[j],
            decreases perWord - i,
        {
            assert(0 <= i * field && (i + 1) * field <= 32 && (i + 1) * field == i * field + field)
                by (nonlinear_arith)
                requires
                    0 <= i < perWord,
                    1 <= field,
                    perWord * field == 32,
            ;
            self.warpBitShiftTable[i as usize] = if self.sourceMSB != 0 {
                (32 - (i + 1) * field) as i32
            } else {
                (i * field) as i32
            };
            i = i + 1;
        }
        proof {
            let done = bb.with_warp_setup();
            assert forall|j: int| 0 <= j < 32 implies self.warpBitShiftTable[j]
                == done.warpBitShiftTable[j] by {
                assert(done.warpBitShiftTable[j] == bb.warp_entry(j));
                if j < perWord {
                    bb.lemma_bit_range(j);
                }
            }
            assert(self.warpBitShiftTable =~= done.warpBitShiftTable);
        }
    }

    /// Address of the word that holds the source pixel at column `x`, row `y`.
    pub open spec fn warp_addr(self, x: int, y: int) -> int {
        self.sourceBits + y * self.sourcePitch + 4 * (x / self.warp_per_word())
    }

    /// The source form has the pixel that a fixed-point position falls on.
    pub open spec fn warp_inside(self, xx: int, yy: int) -> bool {
        &&& 0 <= xx
        &&& 0 <= yy
        &&& xx / 0x4000 < self.sourceWidth
        &&& yy / 0x4000 < self.sourceHeight
    }

    /// The source pixel at a fixed-point position; 0 outside the source form.
    pub open spec fn warp_pixel(self, m: Seq<u8>, xx: int, yy: int) -> u32 {
        if self.warp_inside(xx, yy) {
            let x = xx / 0x4000;
            shr_word(
                word_at(m, self.warp_addr(x, yy / 0x4000)),
                self.warp_bit(x % self.warp_per_word()),
            ) & width_mask(self.sourceDepth as int)
        } else {
            0
        }
    }

    /// The bit position that a pick leaves behind: that of the pixel, or the
    /// one before when there is no pixel.
    pub open spec fn warp_shift(self, xx: int, yy: int, shift: sqInt) -> sqInt {
        if self.warp_inside(xx, yy) {
            self.warp_bit((xx / 0x4000) % self.warp_per_word()) as sqInt
        } else {
            shift
        }
    }

    /// Every word of the source form exists.
    pub open spec fn warp_source_ok(self, size: nat) -> bool {
        forall|x: int, y: int|
            0 <= x < self.sourceWidth && 0 <= y < self.sourceHeight ==> 0
                <= #[trigger] self.warp_addr(x, y) && self.warp_addr(x, y) + 4 <= size
    }

    fn warpPixel(&self, mem: &Memory, xx: sqInt, yy: sqInt, shift: sqInt) -> (r: (u32, sqInt))
        requires
            self.warp_ready(),
            self.warp_source_ok(mem@.len()),
        ensures
            r.0 == self.warp_pixel(mem@, xx as int, yy as int),
            r.1 == self.warp_shift(xx as int, yy as int, shift),
    {
        if xx < 0 || yy < 0 {
            return (0, shift);
        }
        proof {
            lemma_fixed_point(xx as u64);
            lemma_fixed_point(yy as u64);
        }
        let x: sqInt = ((xx as UsqInt) >> 14u64) as sqInt;
        let y: sqInt = ((yy as UsqInt) >> 14u64) as sqInt;
        if x >= self.sourceWidth as sqInt || y >= self.sourceHeight as sqInt {
            return (0, shift);
        }
        proof {
            mem.lemma_size();
            lemma_align(x as u64);
            self.lemma_per_word();
            lemma_area(y as int, self.sourcePitch as int);
            assert(0 <= self.warp_addr(x as int, y as int));
        }
        let column: sqInt = ((x as UsqInt) >> (self.warpAlignShift as u64)) as sqInt;
        let place: UsqInt = x as UsqInt & self.warpAlignMask as UsqInt;
        assert(column == x as int / self.warp_per_word());
        assert(place == x as int % self.warp_per_word());
        let srcIndex: UsqInt = stepped(self.sourceBits, y * self.sourcePitch as sqInt + column * 4);
        let sourceWord: u32 = long32At(mem, srcIndex);
        let bit: sqInt = self.warpBitShiftTable[place as usize] as sqInt;
        let shifted: u32 = shr32(sourceWord, bit);
        proof {
            crate::bitblt::rules::lemma_masked(shifted, width_mask(self.sourceDepth as int));
        }
        ((shifted as sqInt & self.warpSrcMask) as u32, bit)
    }

    /// Picks the source pixel at a fixed-point position.
    pub fn pickWarpPixelAtXy(&mut self, mem: &Memory, xx: sqInt, yy: sqInt) -> (r: u32)
        requires
            old(self).warp_ready(),
            old(self).warp_source_ok(mem@.len()),
        ensures
            r == old(self).warp_pixel(mem@, xx as int, yy as int),
            *final(self) == (BitBlt {
                srcBitShift: old(self).warp_shift(xx as int, yy as int, old(self).srcBitShift),
                ..*old(self)
            }),
    {
        let (pixel, shift) = self.warpPixel(mem, xx, yy, self.srcBitShift);
        self.srcBitShift = shift;
        pixel
    }
}

// ---- Picking words --------------------------------------------------------

/// What a step of a walk gives: the destination pixel and the bit position that
/// the last pick left behind.
pub struct Sample {
    pub value: u32,
    pub shift: sqInt,
}

/// A walk along a row of the destination: the word packed so far, where the walk
/// has come to and the bit position that the last pick left behind.
pub struct Walk {
    pub word: u32,
    pub sx: i32,
    pub sy: i32,
    pub shift: sqInt,
}

/// A coordinate one step on.
pub open spec fn moved(s: i32, d: sqInt) -> i32 {
    (s as sqInt).wrapping_add(d) as i32
}

/// `n` steps of a walk. Each takes a sample and packs it `inc` bits from the
/// one before.
pub open spec fn walked(
    sample: spec_fn(i32, i32, sqInt) -> Sample,
    start: Walk,
    xd: sqInt,
    yd: sqInt,
    mask: u32,
    at: int,
    inc: int,
    n: int,
) -> Walk
    decreases n,
{
    if n <= 0 {
        start
    } else {
        let w = walked(sample, start, xd, yd, mask, at, inc, n - 1);
        let s = sample(w.sx, w.sy, w.shift);
        Walk {
            word: w.word | shl_word(s.value & mask, at + (n - 1) * inc),
            sx: moved(w.sx, xd),
            sy: moved(w.sy, yd),
            shift: s.shift,
        }
    }
}

impl BitBlt {
    /// One source pixel, through the color map.
    pub open spec fn plain_sample(
        self,
        m: Seq<u8>,
        flags: sqInt,
        sx: i32,
        sy: i32,
        shift: sqInt,
    ) -> Sample {
        Sample {
            value: self.map_pixel(
                m,
                self.warp_pixel(m, sx as int, sy as int) as sqInt,
                flags,
            ) as u32,
            shift: self.warp_shift(sx as int, sy as int, shift),
        }
    }

    /// The walk that starts where the registers are.
    pub open spec fn walk_start(self) -> Walk {
        Walk { word: 0, sx: self.sx, sy: self.sy, shift: self.srcBitShift }
    }

    /// The registers after a walk of `n` steps.
    pub open spec fn after_walk(self, w: Walk, inc: int, n: int) -> BitBlt {
        BitBlt {
            sx: w.sx,
            sy: w.sy,
            srcBitShift: w.shift,
            dstBitShift: (self.dstBitShift + n * inc) as sqInt,
            ..self
        }
    }

    /// Picks `nPixels` source pixels along the walk, maps them and packs them
    /// into one destination word.
    pub fn warpPickSourcePixels(
        &mut self,
        mem: &Memory,
        nPixels: sqInt,
        xDeltah: sqInt,
        yDeltah: sqInt,
        _xDeltav: sqInt,
        _yDeltav: sqInt,
        dstShiftInc: sqInt,
        mapperFlags: sqInt,
    ) -> (r: u32)
        requires
            nPixels > 0,
            0 <= old(self).destDepth <= 32,
            old(self).warp_ready(),
            old(self).warp_source_ok(mem@.len()),
            old(self).map_ok(mem@.len(), mapperFlags),
            sqInt::MIN <= old(self).dstBitShift + nPixels * dstShiftInc <= sqInt::MAX,
        ensures
            ({
                let w = walked(
                    |x: i32, y: i32, s: sqInt| old(self).plain_sample(mem@, mapperFlags, x, y, s),
                    old(self).walk_start(),
                    xDeltah,
                    yDeltah,
                    width_mask(old(self).destDepth as int),
                    old(self).dstBitShift as int,
                    dstShiftInc as int,
                    nPixels as int,
                );
                &&& r == w.word
                &&& *final(self) == old(self).after_walk(w, dstShiftInc as int, nPixels as int)
            }),
    {
        let ghost bb = *self;
        let ghost f = |x: i32, y: i32, s: sqInt| bb.plain_sample(mem@, mapperFlags, x, y, s);
        let dstMask: u32 = maskFor(self.destDepth as sqInt);
        let mut destWord: u32 = 0;
        let mut sx: i32 = self.sx;
        let mut sy: i32 = self.sy;
        let mut shift: sqInt = self.srcBitShift;
        let mut dstShift: sqInt = self.dstBitShift;
        let mut n: sqInt = 0;
        while n < nPixels
            invariant
                bb == *old(self),
                *self == bb,
                f == (|x: i32, y: i32, s: sqInt| bb.plain_sample(mem@, mapperFlags, x, y, s)),
                dstMask == width_mask(bb.destDepth as int),
                bb.warp_ready(),
                bb.warp_source_ok(mem@.len()),
                bb.map_ok(mem@.len(), mapperFlags),
                sqInt::MIN <= bb.dstBitShift + nPixels * dstShiftInc <= sqInt::MAX,
                0 <= n <= nPixels,
                dstShift == bb.dstBitShift + n * dstShiftInc,
                (Walk { word: destWord, sx, sy, shift }) == walked(
                    f,
                    bb.walk_start(),
                    xDeltah,
                    yDeltah,
                    dstMask,
                    bb.dstBitShift as int,
                    dstShiftInc as int,
                    n as int,
                ),
            decreases nPixels - n,
        {
            proof {
                lemma_between(
                    bb.dstBitShift as int,
                    dstShiftInc as int,
                    n as int,
                    nPixels as int,
                );
            }
            let (sourcePix, next) = self.warpPixel(mem, sx as sqInt, sy as sqInt, shift);
            let destPix: sqInt = self.mapPixelflags(mem, sourcePix as sqInt, mapperFlags);
            assert(f(sx, sy, shift).value == destPix as u32);
            destWord = destWord | shl32(destPix as u32 & dstMask, dstShift);
            dstShift = dstShift + dstShiftInc;
            sx = (sx as sqInt).wrapping_add(xDeltah) as i32;
            sy = (sy as sqInt).wrapping_add(yDeltah) as i32;
            shift = next;
            n = n + 1;
        }
        self.sx = sx;
        self.sy = sy;
        self.srcBitShift = shift;
        self.dstBitShift = dstShift;
        destWord
    }
}

// ---- Smoothing ------------------------------------------------------------

/// Sums over the pixels of a square, and the bit position that the last pick
/// left behind.
pub struct Sums {
    pub a: int,
    pub r: int,
    pub g: int,
    pub b: int,
    /// How many pixels went into the sums.
    pub n: int,
    pub shift: sqInt,
}

/// The square that a smoothed pixel is averaged over.
pub struct Square {
    /// Pixels along a side.
    pub side: int,
    /// Steps along a row of the square.
    pub xh: int,
    pub yh: int,
    /// Steps between its rows.
    pub xv: int,
    pub yv: int,
    /// Address of the words that stand for source pixels of under 16 bits.
    pub map: int,
}

impl BitBlt {
    /// The 32-bit color that a source pixel stands for.
    pub open spec fn true_color(self, m: Seq<u8>, map: int, pixel: u32) -> u32 {
        if self.sourceDepth < 16 {
            word_at(m, map + 4 * pixel)
        } else if self.sourceDepth == 16 {
            widen16(pixel)
        } else {
            pixel
        }
    }

    /// The pixel at a position added to the sums. Rule 25 leaves zero pixels out.
    pub open spec fn sum_pixel(self, m: Seq<u8>, map: int, q: Sums, x: int, y: int) -> Sums {
        let pixel = self.warp_pixel(m, x, y);
        let shift = self.warp_shift(x, y, q.shift);
        if self.combinationRule == 25 && pixel == 0 {
            Sums { shift, ..q }
        } else {
            let c = self.true_color(m, map, pixel);
            Sums {
                a: q.a + (c >> 24),
                r: q.r + (c >> 16 & 0xFF),
                g: q.g + (c >> 8 & 0xFF),
                b: q.b + (c & 0xFF),
                n: q.n + 1,
                shift,
            }
        }
    }

    /// The first `k` pixels of a row of the square that starts at `x`, `y`.
    pub open spec fn sum_row(
        self,
        m: Seq<u8>,
        sq: Square,
        q: Sums,
        x: int,
        y: int,
        k: int,
    ) -> Sums
        decreases k,
    {
        if k <= 0 {
            q
        } else {
            self.sum_pixel(
                m,
                sq.map,
                self.sum_row(m, sq, q, x, y, k - 1),
                x + (k - 1) * sq.xh,
                y + (k - 1) * sq.yh,
            )
        }
    }

    /// The first `j` rows of the square at `x`, `y`.
    pub open spec fn sum_rows(
        self,
        m: Seq<u8>,
        sq: Square,
        x: int,
        y: int,
        shift: sqInt,
        j: int,
    ) -> Sums
        decreases j,
    {
        if j <= 0 {
            Sums { a: 0, r: 0, g: 0, b: 0, n: 0, shift }
        } else {
            self.sum_row(
                m,
                sq,
                self.sum_rows(m, sq, x, y, shift, j - 1),
                x + (j - 1) * sq.xv,
                y + (j - 1) * sq.yv,
                sq.side,
            )
        }
    }

    /// The average color of the square, through the color map; 0 where no pixel
    /// counted, and under rule 25 where less than half did.
    pub open spec fn average(self, m: Seq<u8>, q: Sums, side: int) -> u32 {
        if q.n == 0 || (self.combinationRule == 25 && q.n < side * side / 2) {
            0
        } else {
            let color = (q.a / q.n) * 0x100_0000 + (q.r / q.n) * 0x1_0000 + (q.g / q.n) * 0x100
                + q.b / q.n;
            self.map_pixel(m, color as sqInt, self.cmFlags) as u32
        }
    }

    /// The average over a square.
    pub open spec fn smooth_sample(
        self,
        m: Seq<u8>,
        sq: Square,
        sx: i32,
        sy: i32,
        shift: sqInt,
    ) -> Sample {
        let q = self.sum_rows(m, sq, sx as int, sy as int, shift, sq.side);
        Sample { value: self.average(m, q, sq.side), shift: q.shift }
    }

    /// The square for a walk in these steps: each step is shared out over the
    /// side.
    pub open spec fn square(n: int, map: int, xh: int, yh: int, xv: int, yv: int) -> Square {
        Square {
            side: n,
            xh: quotient(xh, n),
            yh: quotient(yh, n),
            xv: quotient(xv, n),
            yv: quotient(yv, n),
            map,
        }
    }

    /// The words that stand for source pixels exist.
    pub open spec fn source_map_ok(self, size: nat, map: int) -> bool {
        self.sourceDepth < 16 ==> map + 4 * (width_mask(self.sourceDepth as int) + 1) <= size
    }
}

impl Sums {
    /// Each sum is over that many bytes.
    pub open spec fn in_bytes(self) -> bool {
        &&& 0 <= self.n
        &&& 0 <= self.a <= 255 * self.n
        &&& 0 <= self.r <= 255 * self.n
        &&& 0 <= self.g <= 255 * self.n
        &&& 0 <= self.b <= 255 * self.n
    }
}

/// The sums while a square is gone through.
#[derive(Clone, Copy)]
struct Tally {
    a: sqInt,
    r: sqInt,
    g: sqInt,
    b: sqInt,
    n: sqInt,
    shift: sqInt,
}

impl Tally {
    spec fn sums(self) -> Sums {
        Sums {
            a: self.a as int,
            r: self.r as int,
            g: self.g as int,
            b: self.b as int,
            n: self.n as int,
            shift: self.shift,
        }
    }
}

impl BitBlt {
    /// A row of the square adds at most its length to the count.
    proof fn lemma_sum_row(self, m: Seq<u8>, sq: Square, q: Sums, x: int, y: int, k: int)
        requires
            q.in_bytes(),
            0 <= k,
        ensures
            self.sum_row(m, sq, q, x, y, k).in_bytes(),
            q.n <= self.sum_row(m, sq, q, x, y, k).n <= q.n + k,
        decreases k,
    {
        if k > 0 {
            self.lemma_sum_row(m, sq, q, x, y, k - 1);
            lemma_even_and_odd_bytes(
                self.true_color(
                    m,
                    sq.map,
                    self.warp_pixel(m, x + (k - 1) * sq.xh, y + (k - 1) * sq.yh),
                ),
            );
        }
    }

    /// The rows of the square add at most their lengths to the count.
    proof fn lemma_sum_rows(self, m: Seq<u8>, sq: Square, x: int, y: int, shift: sqInt, j: int)
        requires
            0 <= sq.side,
            0 <= j,
        ensures
            self.sum_rows(m, sq, x, y, shift, j).in_bytes(),
            self.sum_rows(m, sq, x, y, shift, j).n <= j * sq.side,
        decreases j,
    {
        if j > 0 {
            self.lemma_sum_rows(m, sq, x, y, shift, j - 1);
            self.lemma_sum_row(
                m,
                sq,
                self.sum_rows(m, sq, x, y, shift, j - 1),
                x + (j - 1) * sq.xv,
                y + (j - 1) * sq.yv,
                sq.side,
            );
            assert(j * sq.side == (j - 1) * sq.side + sq.side) by (nonlinear_arith);
        }
    }

    /// Adds the pixel at a position to the sums.
    fn sumPixel(&self, mem: &Memory, sourceMap: UsqInt, q: Tally, x: sqInt, y: sqInt) -> (r: Tally)
        requires
            self.warp_ready(),
            self.warp_source_ok(mem@.len()),
            self.source_map_ok(mem@.len(), sourceMap as int),
            q.sums().in_bytes(),
            255 * (q.n + 1) <= sqInt::MAX,
        ensures
            r.sums() == self.sum_pixel(mem@, sourceMap as int, q.sums(), x as int, y as int),
    {
        let (pixel, shift) = self.warpPixel(mem, x, y, q.shift);
        if self.combinationRule == 25 && pixel == 0 {
            return Tally { shift, ..q };
        }
        proof {
            mem.lemma_size();
            let w = self.warp_addr(x as int / 0x4000, y as int / 0x4000);
            crate::bitblt::rules::lemma_masked(
                shr_word(
                    word_at(mem@, w),
                    self.warp_bit((x as int / 0x4000) % self.warp_per_word()),
                ),
                width_mask(self.sourceDepth as int),
            );
        }
        let rgb: u32 = if self.sourceDepth < 16 {
            long32At(mem, sourceMap + (pixel as UsqInt) * 4)
        } else if self.sourceDepth == 16 {
            rgbMap16To32(pixel)
        } else {
            pixel
        };
        proof {
            lemma_even_and_odd_bytes(rgb);
        }
        Tally {
            a: q.a + (rgb >> 24) as sqInt,
            r: q.r + ((rgb >> 16) & 0xFF) as sqInt,
            g: q.g + ((rgb >> 8) & 0xFF) as sqInt,
            b: q.b + (rgb & 0xFF) as sqInt,
            n: q.n + 1,
            shift,
        }
    }

    /// Adds the pixels of a row of the square to the sums.
    fn sumRow(
        &self,
        mem: &Memory,
        sourceMap: UsqInt,
        start: Tally,
        x: sqInt,
        y: sqInt,
        xdh: sqInt,
        ydh: sqInt,
        n: sqInt,
        Ghost(sq): Ghost<Square>,
    ) -> (r: Tally)
        requires
            self.warp_ready(),
            self.warp_source_ok(mem@.len()),
            self.source_map_ok(mem@.len(), sourceMap as int),
            start.sums().in_bytes(),
            0 <= n,
            255 * (start.n + n) <= sqInt::MAX,
            sq.map == sourceMap,
            sq.xh == xdh,
            sq.yh == ydh,
            sqInt::MIN <= x + n * xdh <= sqInt::MAX,
            sqInt::MIN <= y + n * ydh <= sqInt::MAX,
        ensures
            r.sums() == self.sum_row(mem@, sq, start.sums(), x as int, y as int, n as int),
    {
        let mut q: Tally = start;
        let mut xx: sqInt = x;
        let mut yy: sqInt = y;
        let mut k: sqInt = 0;
        while k < n
            invariant
                self.warp_ready(),
                self.warp_source_ok(mem@.len()),
                self.source_map_ok(mem@.len(), sourceMap as int),
                start.sums().in_bytes(),
                255 * (start.n + n) <= sqInt::MAX,
                sq.map == sourceMap,
                sq.xh == xdh,
                sq.yh == ydh,
                sqInt::MIN <= x + n * xdh <= sqInt::MAX,
                sqInt::MIN <= y + n * ydh <= sqInt::MAX,
                0 <= k <= n,
                xx == x + k * xdh,
                yy == y + k * ydh,
                q.sums() == self.sum_row(mem@, sq, start.sums(), x as int, y as int, k as int),
            decreases n - k,
        {
            proof {
                self.lemma_sum_row(mem@, sq, start.sums(), x as int, y as int, k as int);
                lemma_between(x as int, xdh as int, k as int, n as int);
                lemma_between(y as int, ydh as int, k as int, n as int);
            }
            q = self.sumPixel(mem, sourceMap, q, xx, yy);
            xx = xx + xdh;
            yy = yy + ydh;
            k = k + 1;
        }
        q
    }

    /// Sums the pixels of the square at a position.
    fn sumSquare(
        &self,
        mem: &Memory,
        sourceMap: UsqInt,
        sx: i32,
        sy: i32,
        shift: sqInt,
        xdh: sqInt,
        ydh: sqInt,
        xdv: sqInt,
        ydv: sqInt,
        n: sqInt,
        Ghost(sq): Ghost<Square>,
    ) -> (r: Tally)
        requires
            self.warp_ready(),
            self.warp_source_ok(mem@.len()),
            self.source_map_ok(mem@.len(), sourceMap as int),
            0 <= n,
            255 * (n * n) <= sqInt::MAX,
            sq == (Square {
                side: n as int,
                xh: xdh as int,
                yh: ydh as int,
                xv: xdv as int,
                yv: ydv as int,
                map: sourceMap as int,
            }),
            -STEP_LIMIT <= n * xdh <= STEP_LIMIT,
            -STEP_LIMIT <= n * ydh <= STEP_LIMIT,
            -STEP_LIMIT <= n * xdv <= STEP_LIMIT,
            -STEP_LIMIT <= n * ydv <= STEP_LIMIT,
        ensures
            r.sums() == self.sum_rows(mem@, sq, sx as int, sy as int, shift, n as int),
    {
        let mut q: Tally = Tally { a: 0, r: 0, g: 0, b: 0, n: 0, shift };
        let mut x: sqInt = sx as sqInt;
        let mut y: sqInt = sy as sqInt;
        let mut j: sqInt = 0;
        while j < n
            invariant
                self.warp_ready(),
                self.warp_source_ok(mem@.len()),
                self.source_map_ok(mem@.len(), sourceMap as int),
                255 * (n * n) <= sqInt::MAX,
                sq == (Square {
                    side: n as int,
                    xh: xdh as int,
                    yh: ydh as int,
                    xv: xdv as int,
                    yv: ydv as int,
                    map: sourceMap as int,
                }),
                -STEP_LIMIT <= n * xdh <= STEP_LIMIT,
                -STEP_LIMIT <= n * ydh <= STEP_LIMIT,
                -STEP_LIMIT <= n * xdv <= STEP_LIMIT,
                -STEP_LIMIT <= n * ydv <= STEP_LIMIT,
                0 <= j <= n,
                x == sx + j * xdv,
                y == sy + j * ydv,
                q.sums() == self.sum_rows(mem@, sq, sx as int, sy as int, shift, j as int),
            decreases n - j,
        {
            proof {
                self.lemma_sum_rows(mem@, sq, sx as int, sy as int, shift, j as int);
                lemma_part(xdv as int, j as int, n as int);
                lemma_part(ydv as int, j as int, n as int);
                assert(j * n + n <= n * n) by (nonlinear_arith)
                    requires
                        0 <= j < n,
                ;
            }
            q = self.sumRow(mem, sourceMap, q, x, y, xdh, ydh, n, Ghost(sq));
            x = x + xdv;
            y = y + ydv;
            j = j + 1;
        }
        q
    }

    /// The average color of a square, through the color map.
    fn averageColor(&self, mem: &Memory, q: Tally, n: sqInt) -> (r: u32)
        requires
            self.map_ok(mem@.len(), self.cmFlags),
            q.sums().in_bytes(),
            0 <= n,
            n * n <= sqInt::MAX,
        ensures
            r == self.average(mem@, q.sums(), n as int),
    {
        proof {
            assert(0 <= n * n) by (nonlinear_arith);
        }
        if q.n == 0 || (self.combinationRule == 25 && q.n < (n * n) / 2) {
            return 0;
        }
        proof {
            lemma_byte_average(q.a as int, q.n as int);
            lemma_byte_average(q.r as int, q.n as int);
            lemma_byte_average(q.g as int, q.n as int);
            lemma_byte_average(q.b as int, q.n as int);
        }
        // Each average fits a byte, so the color is 0 only where all four are.
        let color: sqInt = (q.a / q.n) * 0x100_0000 + (q.r / q.n) * 0x1_0000 + (q.g / q.n) * 0x100
            + q.b / q.n;
        self.mapPixelflags(mem, color, self.cmFlags) as u32
    }

    /// Averages a square of `n * n` source pixels for each of `nPixels` steps of
    /// the walk, maps the averages and packs them into one destination word.
    pub fn warpPickSmoothPixels(
        &mut self,
        mem: &Memory,
        nPixels: sqInt,
        xDeltah: sqInt,
        yDeltah: sqInt,
        xDeltav: sqInt,
        yDeltav: sqInt,
        sourceMap: UsqInt,
        n: sqInt,
        dstShiftInc: sqInt,
    ) -> (r: u32)
        requires
            nPixels > 0,
            n > 0,
            255 * (n * n) <= sqInt::MAX,
            -STEP_LIMIT <= xDeltah <= STEP_LIMIT,
            -STEP_LIMIT <= yDeltah <= STEP_LIMIT,
            -STEP_LIMIT <= xDeltav <= STEP_LIMIT,
            -STEP_LIMIT <= yDeltav <= STEP_LIMIT,
            0 <= old(self).destDepth <= 32,
            old(self).warp_ready(),
            old(self).warp_source_ok(mem@.len()),
            old(self).source_map_ok(mem@.len(), sourceMap as int),
            old(self).map_ok(mem@.len(), old(self).cmFlags),
            sqInt::MIN <= old(self).dstBitShift + nPixels * dstShiftInc <= sqInt::MAX,
        ensures
            ({
                let sq = BitBlt::square(
                    n as int,
                    sourceMap as int,
                    xDeltah as int,
                    yDeltah as int,
                    xDeltav as int,
                    yDeltav as int,
                );
                let w = walked(
                    |x: i32, y: i32, s: sqInt| old(self).smooth_sample(mem@, sq, x, y, s),
                    old(self).walk_start(),
                    xDeltah,
                    yDeltah,
                    width_mask(old(self).destDepth as int),
                    old(self).dstBitShift as int,
                    dstShiftInc as int,
                    nPixels as int,
                );
                &&& r == w.word
                &&& *final(self) == old(self).after_walk(w, dstShiftInc as int, nPixels as int)
            }),
    {
        let ghost bb = *self;
        let ghost sq = BitBlt::square(
            n as int,
            sourceMap as int,
            xDeltah as int,
            yDeltah as int,
            xDeltav as int,
            yDeltav as int,
        );
        let ghost f = |x: i32, y: i32, s: sqInt| bb.smooth_sample(mem@, sq, x, y, s);
        proof {
            lemma_share(xDeltah as int, n as int);
            lemma_share(yDeltah as int, n as int);
            lemma_share(xDeltav as int, n as int);
            lemma_share(yDeltav as int, n as int);
        }
        let xdh: sqInt = xDeltah / n;
        let ydh: sqInt = yDeltah / n;
        let xdv: sqInt = xDeltav / n;
        let ydv: sqInt = yDeltav / n;
        let dstMask: u32 = maskFor(self.destDepth as sqInt);
        let mut destWord: u32 = 0;
        let mut sx: i32 = self.sx;
        let mut sy: i32 = self.sy;
        let mut shift: sqInt = self.srcBitShift;
        let mut dstShift: sqInt = self.dstBitShift;
        let mut i: sqInt = 0;
        while i < nPixels
            invariant
                bb == *old(self),
                *self == bb,
                f == (|x: i32, y: i32, s: sqInt| bb.smooth_sample(mem@, sq, x, y, s)),
                n > 0,
                255 * (n * n) <= sqInt::MAX,
                sq == (Square {
                    side: n as int,
                    xh: xdh as int,
                    yh: ydh as int,
                    xv: xdv as int,
                    yv: ydv as int,
                    map: sourceMap as int,
                }),
                -STEP_LIMIT <= n * xdh <= STEP_LIMIT,
                -STEP_LIMIT <= n * ydh <= STEP_LIMIT,
                -STEP_LIMIT <= n * xdv <= STEP_LIMIT,
                -STEP_LIMIT <= n * ydv <= STEP_LIMIT,
                dstMask == width_mask(bb.destDepth as int),
                bb.warp_ready(),
                bb.warp_source_ok(mem@.len()),
                bb.source_map_ok(mem@.len(), sourceMap as int),
                bb.map_ok(mem@.len(), bb.cmFlags),
                sqInt::MIN <= bb.dstBitShift + nPixels * dstShiftInc <= sqInt::MAX,
                0 <= i <= nPixels,
                dstShift == bb.dstBitShift + i * dstShiftInc,
                (Walk { word: destWord, sx, sy, shift }) == walked(
                    f,
                    bb.walk_start(),
                    xDeltah,
                    yDeltah,
                    dstMask,
                    bb.dstBitShift as int,
                    dstShiftInc as int,
                    i as int,
                ),
            decreases nPixels - i,
        {
            proof {
                lemma_between(
                    bb.dstBitShift as int,
                    dstShiftInc as int,
                    i as int,
                    nPixels as int,
                );
                bb.lemma_sum_rows(mem@, sq, sx as int, sy as int, shift, n as int);
            }
            let q: Tally = self.sumSquare(
                mem,
                sourceMap,
                sx,
                sy,
                shift,
                xdh,
                ydh,
                xdv,
                ydv,
                n,
                Ghost(sq),
            );
            let rgb: u32 = self.averageColor(mem, q, n);
            assert(f(sx, sy, shift).value == rgb);
            destWord = destWord | shl32(rgb & dstMask, dstShift);
            dstShift = dstShift + dstShiftInc;
            sx = (sx as sqInt).wrapping_add(xDeltah) as i32;
            sy = (sy as sqInt).wrapping_add(yDeltah) as i32;
            shift = q.shift;
            i = i + 1;
        }
        self.sx = sx;
        self.sy = sy;
        self.srcBitShift = shift;
        self.dstBitShift = dstShift;
        destWord
    }
}

/// The average of bytes is a byte.
proof fn lemma_byte_average(sum: int, n: int)
    requires
        0 < n,
        0 <= sum <= 255 * n,
    ensures
        0 <= sum / n <= 255,
{
    assert(0 <= sum / n <= 255) by (nonlinear_arith)
        requires
            0 < n,
            0 <= sum <= 255 * n,
    ;
}

/// The shares of a step do not add up to more than the step.
proof fn lemma_share(d: int, n: int)
    requires
        n > 0,
    ensures
        d >= 0 ==> 0 <= n * quotient(d, n) <= d,
        d <= 0 ==> d <= n * quotient(d, n) <= 0,
        d >= 0 ==> 0 <= quotient(d, n) <= d,
        d <= 0 ==> d <= quotient(d, n) <= 0,
{
    let a = if d >= 0 {
        d
    } else {
        -d
    };
    let q = a / n;
    assert(0 <= n * q <= a && 0 <= q <= a && n * (-q) == -(n * q)) by (nonlinear_arith)
        requires
            0 <= a,
            0 < n,
            q == a / n,
    ;
}

/// Part of a bounded multiple is bounded.
proof fn lemma_part(d: int, j: int, n: int)
    requires
        0 <= j < n,
        -STEP_LIMIT <= n * d <= STEP_LIMIT,
    ensures
        -STEP_LIMIT <= j * d <= STEP_LIMIT,
        -STEP_LIMIT <= j * d + d <= STEP_LIMIT,
        (j + 1) * d == j * d + d,
{
    assert(d >= 0 ==> 0 <= j * d && j * d + d <= n * d) by (nonlinear_arith)
        requires
            0 <= j < n,
    ;
    assert(d <= 0 ==> j * d <= 0 && n * d <= j * d + d) by (nonlinear_arith)
        requires
            0 <= j < n,
    ;
    assert((j + 1) * d == j * d + d) by (nonlinear_arith);
}

proof fn lemma_fixed_point(x: u64)
    by (bit_vector)
    ensures
        x >> 14u64 == x / 0x4000,
{
}

proof fn lemma_align(x: u64)
    by (bit_vector)
    ensures
        x >> 0u64 == x / 1 && x & 0 == x % 1,
        x >> 1u64 == x / 2 && x & 1 == x % 2,
        x >> 2u64 == x / 4 && x & 3 == x % 4,
        x >> 3u64 == x / 8 && x & 7 == x % 8,
        x >> 4u64 == x / 16 && x & 15 == x % 16,
        x >> 5u64 == x / 32 && x & 31 == x % 32,
{
}

} // verus!
