//! What a line makes of the destination: a blit at every point between its ends,
//! and with a brush of one pixel a change of every such pixel and of no other.
use vstd::prelude::*;
use crate::bitblt::bits::{row_bit, rule_bit, stream_bit};
use crate::bitblt::blit::BlitArgs;
use crate::bitblt::line::{
    lemma_offset_bound, lemma_risen_bound, lemma_risen_step, line_delta_ok, line_offset,
    line_steps, magnitude, risen, sign,
};
use crate::bitblt::memory::word_at;
use crate::bitblt::state::BitBlt;

verus! {

// ---- Points ---------------------------------------------------------------

/// The points of a line follow it: each is one step further along the longer way
/// than the one before, and across it no more than half a pixel from the straight
/// line between the ends.
pub proof fn lemma_line_is_straight(xd: int, yd: int, i: int)
    requires
        0 <= i <= line_steps(xd, yd),
        0 < line_steps(xd, yd),
    ensures
        ({
            let (x, y) = line_offset(xd, yd, i);
            let n = line_steps(xd, yd);
            &&& n == magnitude(xd) || n == magnitude(yd)
            &&& magnitude(xd) <= n && magnitude(yd) <= n
            &&& -n <= 2 * (x * yd - y * xd) <= n
            &&& magnitude(xd) > magnitude(yd) ==> x * n == i * xd
            &&& magnitude(xd) <= magnitude(yd) ==> y * n == i * yd
            &&& 0 <= x * xd && 0 <= y * yd
        }),
{
    let n = line_steps(xd, yd);
    let (x, y) = line_offset(xd, yd, i);
    let minor = if magnitude(xd) > magnitude(yd) {
        magnitude(yd)
    } else {
        magnitude(xd)
    };
    let k = risen(i, minor, n);
    lemma_risen_step(i, minor, n);
    lemma_risen_bound(i, minor, n);
    let off = i * minor - k * n;
    assert(-n <= 2 * off <= n);
    let (sx, sy) = (sign(xd), sign(yd));
    assert(xd == sx * magnitude(xd)) by (nonlinear_arith)
        requires
            sx == sign(xd),
            xd > 0 ==> sx == 1 && magnitude(xd) == xd,
            xd < 0 ==> sx == -1 && magnitude(xd) == -xd,
            xd == 0 ==> sx == 0 && magnitude(xd) == 0,
    ;
    assert(yd == sy * magnitude(yd)) by (nonlinear_arith)
        requires
            sy == sign(yd),
            yd > 0 ==> sy == 1 && magnitude(yd) == yd,
            yd < 0 ==> sy == -1 && magnitude(yd) == -yd,
            yd == 0 ==> sy == 0 && magnitude(yd) == 0,
    ;
    let s = sx * sy;
    if magnitude(xd) > magnitude(yd) {
        lemma_signed(sx, sy, i, minor, k, n);
        assert(0 <= x * xd && 0 <= y * yd) by (nonlinear_arith)
            requires
                x == sx * i,
                y == sy * k,
                xd == sx * n,
                yd == sy * minor,
                0 <= i,
                0 <= k,
                0 <= n,
                0 <= minor,
        ;
    } else {
        lemma_signed(sy, sx, i, minor, k, n);
        assert(sy * sx == sx * sy) by (nonlinear_arith);
        assert(x * yd - y * xd == -((sy * i) * (sx * minor) - (sx * k) * (sy * n)))
            by (nonlinear_arith)
            requires
                x == sx * k,
                y == sy * i,
                xd == sx * minor,
                yd == sy * n,
        ;
        assert(0 <= x * xd && 0 <= y * yd) by (nonlinear_arith)
            requires
                x == sx * k,
                y == sy * i,
                xd == sx * minor,
                yd == sy * n,
                0 <= i,
                0 <= k,
                0 <= n,
                0 <= minor,
        ;
    }
    assert(-n <= 2 * (s * off) <= n) by (nonlinear_arith)
        requires
            -n <= 2 * off <= n,
            s == -1 || s == 0 || s == 1,
            0 <= n,
    ;
}

proof fn lemma_signed(s: int, t: int, i: int, minor: int, k: int, n: int)
    ensures
        (s * i) * (t * minor) - (t * k) * (s * n) == (s * t) * (i * minor - k * n),
        (s * i) * n == i * (s * n),
{
    assert((s * i) * (t * minor) == (s * t) * (i * minor)) by (nonlinear_arith);
    assert((t * k) * (s * n) == (s * t) * (k * n)) by (nonlinear_arith);
    assert((s * t) * (i * minor) - (s * t) * (k * n) == (s * t) * (i * minor - k * n))
        by (nonlinear_arith);
    assert((s * i) * n == i * (s * n)) by (nonlinear_arith);
}

/// No point of a line comes twice.
pub proof fn lemma_line_points_differ(xd: int, yd: int, i: int, j: int)
    requires
        0 <= i < j <= line_steps(xd, yd),
    ensures
        line_offset(xd, yd, i) != line_offset(xd, yd, j),
{
    assert(sign(xd) * i != sign(xd) * j || sign(xd) == 0) by (nonlinear_arith)
        requires
            i < j,
    ;
    assert(sign(yd) * i != sign(yd) * j || sign(yd) == 0) by (nonlinear_arith)
        requires
            i < j,
    ;
}

// ---- Blits along a line ---------------------------------------------------

impl BitBlt {
    /// Blits by both sets of registers draw the same at the same place: the forms,
    /// the halftone, the color map, the rule, the extent, the source origin and
    /// the clipping rectangle are the same.
    pub open spec fn draws_like(self, other: BitBlt) -> bool {
        &&& self.dest_geometry() == other.dest_geometry()
        &&& self.sourceWidth == other.sourceWidth && self.sourceHeight == other.sourceHeight
        &&& self.sourceDepth == other.sourceDepth && self.sourceMSB == other.sourceMSB
        &&& self.sourcePitch == other.sourcePitch && self.sourceBits == other.sourceBits
        &&& self.destForm == other.destForm && self.sourceForm == other.sourceForm
        &&& self.combinationRule == other.combinationRule
        &&& self.noSource == other.noSource && self.noHalftone == other.noHalftone
        &&& !self.noHalftone ==> self.halftoneBase == other.halftoneBase && self.halftoneHeight
            == other.halftoneHeight
        &&& self.width == other.width && self.height == other.height
        &&& self.sourceX == other.sourceX && self.sourceY == other.sourceY
        &&& self.clipX == other.clipX && self.clipWidth == other.clipWidth
        &&& self.clipY == other.clipY && self.clipHeight == other.clipHeight
        &&& self.cmFlags == other.cmFlags && self.cmMask == other.cmMask
        &&& self.cmLookupTable == other.cmLookupTable
        &&& self.cmShiftTable == other.cmShiftTable && self.cmMaskTable == other.cmMaskTable
        &&& self.cmLocalMasks == other.cmLocalMasks
        &&& self.cmLocalShifts == other.cmLocalShifts
    }

    /// A blit leaves the registers that say what is drawn, and where.
    pub proof fn lemma_blit_keeps(self, m: Seq<u8>, a: BlitArgs)
        ensures
            self.copied_bits(m, a).0.bb.draws_like(self),
            self.copied_bits(m, a).0.bb.destX == self.destX,
            self.copied_bits(m, a).0.bb.destY == self.destY,
    {
        reveal(BitBlt::looped);
    }

    proof fn lemma_line_keeps(self, m: Seq<u8>, a: BlitArgs, xd: int, yd: int, i: int)
        ensures
            self.line_state(m, a, xd, yd, i).bb.draws_like(self),
        decreases i,
    {
        if i > 0 {
            self.lemma_line_keeps(m, a, xd, yd, i - 1);
            let q = self.line_state(m, a, xd, yd, i - 1);
            let there = q.bb.at_point(self, xd, yd, i);
            there.lemma_blit_keeps(q.mem, a);
        }
    }

    /// A line that is not refused blits at every point between its ends, each time
    /// with the same forms, rule and brush, onto what the blit before has left.
    /// It does not blit at its ends.
    pub proof fn lemma_line_blits(
        self,
        m: Seq<u8>,
        a: BlitArgs,
        xd: int,
        yd: int,
        i: int,
    ) -> (there: BitBlt)
        requires
            line_delta_ok(xd),
            line_delta_ok(yd),
            -0x4000_0000_0000_0000 <= self.destX <= 0x4000_0000_0000_0000,
            -0x4000_0000_0000_0000 <= self.destY <= 0x4000_0000_0000_0000,
            0 < i <= line_steps(xd, yd),
            self.line_state(m, a, xd, yd, i).ok,
        ensures
            self.line_state(m, a, xd, yd, 0).mem == m,
            self.line_state(m, a, xd, yd, i - 1).ok,
            there.draws_like(self),
            there.destX == self.destX + line_offset(xd, yd, i).0,
            there.destY == self.destY + line_offset(xd, yd, i).1,
            ({
                let before = self.line_state(m, a, xd, yd, i - 1).mem;
                let after = self.line_state(m, a, xd, yd, i).mem;
                if i < line_steps(xd, yd) {
                    there.copied_bits(before, a).1 && after == there.copied_bits(before, a).0.mem
                } else {
                    after == before
                }
            }),
    {
        self.lemma_line_keeps(m, a, xd, yd, i - 1);
        lemma_offset_bound(xd, yd, i);
        self.line_state(m, a, xd, yd, i - 1).bb.at_point(self, xd, yd, i)
    }

    // ---- Lines of single pixels -------------------------------------------

    /// The registers moved to point `i` of a line from here.
    pub open spec fn on_line(self, xd: int, yd: int, i: int) -> BitBlt {
        self.at_point(self, xd, yd, i)
    }

    /// A pixel is one of the first `n` points of a line from here, the start not
    /// counted, and is inside the clipping rectangle.
    pub open spec fn line_hits(self, xd: int, yd: int, n: int, x: int, y: int) -> bool {
        &&& self.clipX <= x < self.clipX + self.clipWidth
        &&& self.clipY <= y < self.clipY + self.clipHeight
        &&& exists|i: int|
            0 < i <= n && #[trigger] line_offset(xd, yd, i) == (x - self.destX, y - self.destY)
    }

    /// What a line can be drawn with so that its pixels can be told: a brush of one
    /// pixel, without a source, over a form in memory.
    pub open spec fn line_plain(self, size: nat, xd: int, yd: int) -> bool {
        &&& self.noSource
        &&& 0 <= self.combinationRule <= 15
        &&& self.width == 1 && self.height == 1
        &&& self.dest_whole(size)
        &&& self.halftone_beside(size)
        &&& line_delta_ok(xd)
        &&& line_delta_ok(yd)
        &&& -0x4000_0000_0000_0000 <= self.destX <= 0x4000_0000_0000_0000
        &&& -0x4000_0000_0000_0000 <= self.destY <= 0x4000_0000_0000_0000
        &&& forall|i: int|
            0 < i < line_steps(xd, yd) ==> (#[trigger] self.on_line(xd, yd, i)).clip_exact()
    }

    /// The memory beside the form, the halftone included, is as it was.
    proof fn lemma_halftone_same(self, m: Seq<u8>, now: Seq<u8>, y: int)
        requires
            self.halftone_beside(m.len()),
            now.len() == m.len(),
            0 <= y,
            forall|at: int| 0 <= at < m.len() && self.beside(at, 1) ==> #[trigger] now[at] == m[at],
        ensures
            self.halftone_at(now, y) == self.halftone_at(m, y),
    {
        if !self.noHalftone {
            reveal(word_at);
            let h = self.halftoneHeight as int;
            let k = y % h;
            assert(0 <= k < h) by (nonlinear_arith)
                requires
                    k == y % h,
                    0 < h,
            ;
            let f = self.halftoneBase + k * 4;
            assert(self.beside(f, 1) && self.beside(f + 1, 1) && self.beside(f + 2, 1)
                && self.beside(f + 3, 1));
        }
    }

    /// One blit of such a line: it changes the pixel it is at, and no other.
    proof fn lemma_point(
        self,
        there: BitBlt,
        now: Seq<u8>,
        a: BlitArgs,
        y: int,
        b: int,
        at: int,
    )
        requires
            there.draws_like(self),
            there.clip_exact(),
            self.noSource,
            0 <= self.combinationRule <= 15,
            self.width == 1 && self.height == 1,
            self.dest_whole(now.len()),
            self.halftone_beside(now.len()),
            0 <= y < self.destHeight,
            0 <= b < 8 * self.destPitch,
            0 <= at < now.len(),
        ensures
            ({
                let (blit, ok) = there.copied_bits(now, a);
                let msb = self.destMSB != 0;
                let x = b / (self.destDepth as int);
                let before = row_bit(now, msb, self.dest_row(y), b);
                &&& ok
                &&& blit.mem.len() == now.len()
                &&& self.beside(at, 1) ==> blit.mem[at] == now[at]
                &&& row_bit(blit.mem, msb, self.dest_row(y), b) == (if x == there.destX && y
                    == there.destY && self.clipX <= x < self.clipX + self.clipWidth && self.clipY
                    <= y < self.clipY + self.clipHeight {
                    rule_bit(
                        self.combinationRule as int,
                        stream_bit(msb, self.halftone_at(now, y), b % 32),
                        before,
                    )
                } else {
                    before
                })
            }),
    {
        assert(there.dest_row(0) == self.dest_row(0));
        assert(there.dest_row(self.destHeight as int) == self.dest_row(self.destHeight as int));
        assert(there.dest_row(y) == self.dest_row(y));
        assert(there.halftone_at(now, y) == self.halftone_at(now, y));
        there.lemma_fill_blit(now, a, y, b, at);
    }

    /// One step of such a line that is not the last.
    proof fn lemma_line_step(
        self,
        m: Seq<u8>,
        a: BlitArgs,
        xd: int,
        yd: int,
        n: int,
        y: int,
        b: int,
    )
        requires
            self.line_plain(m.len(), xd, yd),
            0 < n < line_steps(xd, yd),
            0 <= y < self.destHeight,
            0 <= b < 8 * self.destPitch,
            self.line_state(m, a, xd, yd, n - 1).ok,
            self.line_state(m, a, xd, yd, n - 1).mem.len() == m.len(),
        ensures
            ({
                let now = self.line_state(m, a, xd, yd, n - 1).mem;
                let q = self.line_state(m, a, xd, yd, n);
                let msb = self.destMSB != 0;
                let x = b / (self.destDepth as int);
                let before = row_bit(now, msb, self.dest_row(y), b);
                &&& q.ok
                &&& q.mem.len() == m.len()
                &&& forall|at: int|
                    0 <= at < m.len() && self.beside(at, 1) ==> #[trigger] q.mem[at] == now[at]
                &&& row_bit(q.mem, msb, self.dest_row(y), b) == (if line_offset(xd, yd, n) == (
                    x - self.destX,
                    y - self.destY,
                ) && self.clipX <= x < self.clipX + self.clipWidth && self.clipY <= y < self.clipY
                    + self.clipHeight {
                    rule_bit(
                        self.combinationRule as int,
                        stream_bit(msb, self.halftone_at(now, y), b % 32),
                        before,
                    )
                } else {
                    before
                })
            }),
    {
        let q = self.line_state(m, a, xd, yd, n - 1);
        let next = self.line_state(m, a, xd, yd, n);
        let there = q.bb.at_point(self, xd, yd, n);
        self.lemma_line_keeps(m, a, xd, yd, n - 1);
        lemma_offset_bound(xd, yd, n);
        assert(self.on_line(xd, yd, n).clip_exact());
        assert(there.clip_exact());
        self.lemma_row_there(m.len(), y);
        self.lemma_point(there, q.mem, a, y, b, self.dest_row(y));
        assert(next.mem == there.copied_bits(q.mem, a).0.mem);
        assert forall|at: int| 0 <= at < m.len() && self.beside(at, 1) implies
            #[trigger] next.mem[at] == q.mem[at] by {
            self.lemma_point(there, q.mem, a, y, b, at);
        }
    }

    /// The first `n` steps of such a line.
    proof fn lemma_line_so_far(
        self,
        m: Seq<u8>,
        a: BlitArgs,
        xd: int,
        yd: int,
        n: int,
        y: int,
        b: int,
    )
        requires
            self.line_plain(m.len(), xd, yd),
            0 <= n < line_steps(xd, yd),
            0 <= y < self.destHeight,
            0 <= b < 8 * self.destPitch,
        ensures
            ({
                let q = self.line_state(m, a, xd, yd, n);
                let msb = self.destMSB != 0;
                let before = row_bit(m, msb, self.dest_row(y), b);
                let x = b / (self.destDepth as int);
                &&& q.ok
                &&& q.mem.len() == m.len()
                &&& forall|at: int|
                    0 <= at < m.len() && self.beside(at, 1) ==> #[trigger] q.mem[at] == m[at]
                &&& row_bit(q.mem, msb, self.dest_row(y), b) == (if self.line_hits(
                    xd,
                    yd,
                    n,
                    x,
                    y,
                ) {
                    rule_bit(
                        self.combinationRule as int,
                        stream_bit(msb, self.halftone_at(m, y), b % 32),
                        before,
                    )
                } else {
                    before
                })
            }),
        decreases n,
    {
        if n > 0 {
            self.lemma_line_so_far(m, a, xd, yd, n - 1, y, b);
            self.lemma_line_step(m, a, xd, yd, n, y, b);
            let now = self.line_state(m, a, xd, yd, n - 1).mem;
            let next = self.line_state(m, a, xd, yd, n).mem;
            let x = b / (self.destDepth as int);
            self.lemma_halftone_same(m, now, y);
            assert forall|at: int| 0 <= at < m.len() && self.beside(at, 1) implies
                #[trigger] next[at] == m[at] by {
                assert(now[at] == m[at]);
            }
            self.lemma_hits_once(xd, yd, n, x, y);
        }
    }

    /// A pixel that is one of the points of a line is one once.
    proof fn lemma_hits_once(self, xd: int, yd: int, n: int, x: int, y: int)
        requires
            0 < n < line_steps(xd, yd),
        ensures
            ({
                let here = line_offset(xd, yd, n) == (x - self.destX, y - self.destY) && self.clipX
                    <= x < self.clipX + self.clipWidth && self.clipY <= y < self.clipY
                    + self.clipHeight;
                &&& self.line_hits(xd, yd, n, x, y) == (self.line_hits(xd, yd, n - 1, x, y)
                    || here)
                &&& !(self.line_hits(xd, yd, n - 1, x, y) && here)
            }),
    {
        let to = (x - self.destX, y - self.destY);
        if self.line_hits(xd, yd, n - 1, x, y) {
            let i = choose|i: int| 0 < i <= n - 1 && #[trigger] line_offset(xd, yd, i) == to;
            lemma_line_points_differ(xd, yd, i, n);
            assert(0 < i <= n && line_offset(xd, yd, i) == to);
        }
        if line_offset(xd, yd, n) == to {
            assert(0 < n <= n && line_offset(xd, yd, n) == to);
        }
        if self.line_hits(xd, yd, n, x, y) {
            let i = choose|i: int| 0 < i <= n && #[trigger] line_offset(xd, yd, i) == to;
            if i < n {
                assert(0 < i <= n - 1 && line_offset(xd, yd, i) == to);
            }
        }
    }

    /// A line drawn with a brush of one pixel, without a source, changes by the
    /// rule exactly the pixels of its points between the ends, as far as they are
    /// inside the clipping rectangle. Every other bit of the form stays, and so
    /// does all memory beside the form.
    pub proof fn lemma_line_pixels(
        self,
        m: Seq<u8>,
        a: BlitArgs,
        xd: int,
        yd: int,
        y: int,
        b: int,
        at: int,
    )
        requires
            self.line_plain(m.len(), xd, yd),
            0 <= y < self.destHeight,
            0 <= b < 8 * self.destPitch,
            0 <= at < m.len(),
        ensures
            ({
                let q = self.line_state(m, a, xd, yd, line_steps(xd, yd));
                let msb = self.destMSB != 0;
                let before = row_bit(m, msb, self.dest_row(y), b);
                let x = b / (self.destDepth as int);
                let point = exists|i: int|
                    0 < i < line_steps(xd, yd) && #[trigger] line_offset(xd, yd, i) == (
                        x - self.destX,
                        y - self.destY,
                    );
                &&& q.ok
                &&& q.mem.len() == m.len()
                &&& row_bit(q.mem, msb, self.dest_row(y), b) == (if point && self.clipX <= x
                    < self.clipX + self.clipWidth && self.clipY <= y < self.clipY
                    + self.clipHeight {
                    rule_bit(
                        self.combinationRule as int,
                        stream_bit(msb, self.halftone_at(m, y), b % 32),
                        before,
                    )
                } else {
                    before
                })
                &&& self.beside(at, 1) ==> q.mem[at] == m[at]
            }),
    {
        let n = line_steps(xd, yd);
        let x = b / (self.destDepth as int);
        if n > 0 {
            self.lemma_line_so_far(m, a, xd, yd, n - 1, y, b);
            let point = exists|i: int|
                0 < i < n && #[trigger] line_offset(xd, yd, i) == (
                    x - self.destX,
                    y - self.destY,
                );
            if point {
                let i = choose|i: int|
                    0 < i < n && #[trigger] line_offset(xd, yd, i) == (
                        x - self.destX,
                        y - self.destY,
                    );
                assert(0 < i <= n - 1 && line_offset(xd, yd, i) == (
                    x - self.destX,
                    y - self.destY,
                ));
            }
        }
    }
}

} // verus!
