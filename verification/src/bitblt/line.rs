//! Drawing lines by blitting along them.
use vstd::prelude::*;
use crate::prim::sqInt;
use crate::bitblt::memory::Memory;
use crate::bitblt::state::BitBlt;
use crate::bitblt::blit::BlitArgs;

verus! {

/// A delta that a line can have: twice of it fits a word of the machine.
pub open spec fn line_delta_ok(d: int) -> bool {
    -0x2000_0000_0000_0000 <= d <= 0x2000_0000_0000_0000
}

pub open spec fn sign(d: int) -> int {
    if d > 0 {
        1
    } else if d < 0 {
        -1
    } else {
        0
    }
}

pub open spec fn magnitude(d: int) -> int {
    if d < 0 {
        -d
    } else {
        d
    }
}

/// Of a line that rises by `minor` over `major` steps, how far it has risen
/// after `i`: the nearest whole number, halves rounded by where the line starts.
pub open spec fn risen(i: int, minor: int, major: int) -> int {
    (i * minor + (major - 1 - major / 2)) / major
}

/// Steps from one end of the line to the other.
pub open spec fn line_steps(xd: int, yd: int) -> int {
    if magnitude(xd) > magnitude(yd) {
        magnitude(xd)
    } else {
        magnitude(yd)
    }
}

/// How far the line has come after `i` steps.
pub open spec fn line_offset(xd: int, yd: int, i: int) -> (int, int) {
    if magnitude(xd) > magnitude(yd) {
        (sign(xd) * i, sign(yd) * risen(i, magnitude(yd), magnitude(xd)))
    } else {
        (sign(xd) * risen(i, magnitude(xd), magnitude(yd)), sign(yd) * i)
    }
}

/// A line ends where it should.
pub proof fn lemma_line_ends_at_its_delta(xd: int, yd: int)
    ensures
        line_steps(xd, yd) > 0 ==> line_offset(xd, yd, line_steps(xd, yd)) == (xd, yd),
{
    let n = line_steps(xd, yd);
    if n > 0 {
        let minor = if magnitude(xd) > magnitude(yd) {
            magnitude(yd)
        } else {
            magnitude(xd)
        };
        lemma_risen_all(minor, n);
        assert(sign(xd) * magnitude(xd) == xd) by (nonlinear_arith)
            requires
                magnitude(xd) == (if xd < 0 {
                    -xd
                } else {
                    xd
                }),
                sign(xd) == (if xd > 0 {
                    1int
                } else if xd < 0 {
                    -1
                } else {
                    0
                }),
        ;
        assert(sign(yd) * magnitude(yd) == yd) by (nonlinear_arith)
            requires
                magnitude(yd) == (if yd < 0 {
                    -yd
                } else {
                    yd
                }),
                sign(yd) == (if yd > 0 {
                    1int
                } else if yd < 0 {
                    -1
                } else {
                    0
                }),
        ;
    }
}

proof fn lemma_risen_all(minor: int, major: int)
    requires
        0 < major,
    ensures
        risen(major, minor, major) == minor,
{
    let rest = major - 1 - major / 2;
    assert((major * minor + rest) / major == minor) by (nonlinear_arith)
        requires
            0 < major,
            0 <= rest < major,
    ;
}

/// A line moves by at most one pixel each way in one step.
pub proof fn lemma_line_is_connected(xd: int, yd: int, i: int)
    requires
        0 <= i,
    ensures
        line_steps(xd, yd) > 0 ==> {
            let (x0, y0) = line_offset(xd, yd, i);
            let (x1, y1) = line_offset(xd, yd, i + 1);
            -1 <= x1 - x0 <= 1 && -1 <= y1 - y0 <= 1
        },
{
    let n = line_steps(xd, yd);
    if n > 0 {
        let minor = if magnitude(xd) > magnitude(yd) {
            magnitude(yd)
        } else {
            magnitude(xd)
        };
        lemma_risen_step(i, minor, n);
        let (a, b) = (risen(i, minor, n), risen(i + 1, minor, n));
        assert(sign(xd) * (i + 1) == sign(xd) * i + sign(xd)) by (nonlinear_arith);
        assert(sign(yd) * (i + 1) == sign(yd) * i + sign(yd)) by (nonlinear_arith);
        assert(sign(xd) * b - sign(xd) * a == sign(xd) * (b - a)) by (nonlinear_arith);
        assert(sign(yd) * b - sign(yd) * a == sign(yd) * (b - a)) by (nonlinear_arith);
        assert(-1 <= sign(xd) * (b - a) <= 1) by (nonlinear_arith)
            requires
                -1 <= sign(xd) <= 1,
                0 <= b - a <= 1,
        ;
        assert(-1 <= sign(yd) * (b - a) <= 1) by (nonlinear_arith)
            requires
                -1 <= sign(yd) <= 1,
                0 <= b - a <= 1,
        ;
    }
}

/// One more step rises by one or not at all, by where the remainder stands.
pub(crate) proof fn lemma_risen_step(i: int, minor: int, major: int)
    requires
        0 <= i,
        0 <= minor <= major,
        0 < major,
    ensures
        0 <= risen(i + 1, minor, major) - risen(i, minor, major) <= 1,
        risen(i + 1, minor, major) == risen(i, minor, major) + (if major / 2 - (i + 1) * minor
            + risen(i, minor, major) * major < 0 {
            1int
        } else {
            0
        }),
        0 <= major / 2 - i * minor + risen(i, minor, major) * major < major,
        0 <= major / 2 - (i + 1) * minor + risen(i + 1, minor, major) * major < major,
        (i + 1) * minor == i * minor + minor,
{
    let rest = major - 1 - major / 2;
    let a = i * minor + rest;
    let k = a / major;
    lemma_quotient(a, major);
    lemma_quotient(a + minor, major);
    assert((i + 1) * minor == i * minor + minor) by (nonlinear_arith);
    let j = (a + minor) / major;
    assert(j == k || j == k + 1) by (nonlinear_arith)
        requires
            k * major <= a < k * major + major,
            j * major <= a + minor < j * major + major,
            0 <= minor <= major,
            0 < major,
    ;
    assert((k + 1) * major == k * major + major) by (nonlinear_arith);
}

proof fn lemma_quotient(a: int, b: int)
    requires
        0 < b,
    ensures
        (a / b) * b <= a < (a / b) * b + b,
{
    assert((a / b) * b <= a < (a / b) * b + b) by (nonlinear_arith)
        requires
            0 < b,
    ;
}

// ---- Walking along a line -------------------------------------------------

/// A walk along a line.
#[derive(Debug, Clone, Copy, PartialEq, Eq, Structural)]
pub struct Line {
    pub xDelta: sqInt,
    pub yDelta: sqInt,
    /// Steps taken.
    pub step: sqInt,
    /// Steps in all.
    pub steps: sqInt,
    /// How far the line has risen across its long way.
    pub rise: sqInt,
    /// What is left until it rises again.
    pub left: sqInt,
}

impl Line {
    /// The walk is where its steps have taken it.
    pub open spec fn inv(self) -> bool {
        let minor = if magnitude(self.xDelta as int) > magnitude(self.yDelta as int) {
            magnitude(self.yDelta as int)
        } else {
            magnitude(self.xDelta as int)
        };
        &&& line_delta_ok(self.xDelta as int)
        &&& line_delta_ok(self.yDelta as int)
        &&& self.steps == line_steps(self.xDelta as int, self.yDelta as int)
        &&& 0 <= self.step <= self.steps
        &&& self.steps > 0 ==> {
            &&& self.rise == risen(self.step as int, minor, self.steps as int)
            &&& self.left == self.steps as int / 2 - self.step * minor + self.rise * self.steps
        }
    }

    /// A walk about to start.
    pub fn new(xDelta: sqInt, yDelta: sqInt) -> (r: Line)
        requires
            line_delta_ok(xDelta as int),
            line_delta_ok(yDelta as int),
        ensures
            r.inv(),
            r.xDelta == xDelta,
            r.yDelta == yDelta,
            r.step == 0,
    {
        let px: sqInt = if yDelta < 0 {
            -yDelta
        } else {
            yDelta
        };
        let py: sqInt = if xDelta < 0 {
            -xDelta
        } else {
            xDelta
        };
        let steps: sqInt = if py > px {
            py
        } else {
            px
        };
        let ghost minor: int = if py > px {
            px as int
        } else {
            py as int
        };
        proof {
            assert(0 * minor == 0 && 0 * steps == 0);
            if steps > 0 {
                assert((steps - 1 - steps as int / 2) / steps as int == 0) by (nonlinear_arith)
                    requires
                        0 < steps,
                ;
            }
        }
        Line { xDelta, yDelta, step: 0, steps, rise: 0, left: steps / 2 }
    }

    /// Takes one step and moves the blit along. Answers whether to blit there;
    /// the last point is left to what comes after the line.
    pub fn advance(&mut self, bb: &mut BitBlt) -> (r: bool)
        requires
            old(self).inv(),
            old(self).step < old(self).steps,
            sqInt::MIN < old(bb).destX < sqInt::MAX,
            sqInt::MIN < old(bb).destY < sqInt::MAX,
        ensures
            final(self).inv(),
            *final(self) == (Line {
                step: (old(self).step + 1) as sqInt,
                rise: final(self).rise,
                left: final(self).left,
                ..*old(self)
            }),
            ({
                let (x0, y0) = line_offset(
                    old(self).xDelta as int,
                    old(self).yDelta as int,
                    old(self).step as int,
                );
                let (x1, y1) = line_offset(
                    old(self).xDelta as int,
                    old(self).yDelta as int,
                    old(self).step + 1,
                );
                &&& final(bb).destX == old(bb).destX + (x1 - x0)
                &&& final(bb).destY == old(bb).destY + (y1 - y0)
                &&& *final(bb) == (BitBlt {
                    destX: final(bb).destX,
                    destY: final(bb).destY,
                    ..*old(bb)
                })
            }),
            r == (old(self).step + 1 < old(self).steps),
    {
        let dx1: sqInt = signOf(self.xDelta);
        let dy1: sqInt = signOf(self.yDelta);
        let px: sqInt = magnitudeOf(self.yDelta);
        let py: sqInt = magnitudeOf(self.xDelta);
        let horizontal: bool = py > px;
        let minor: sqInt = if horizontal {
            px
        } else {
            py
        };
        let ghost i = self.step as int;
        let ghost k = self.rise as int;
        proof {
            lemma_risen_step(i, minor as int, self.steps as int);
            assert(dx1 * (i + 1) == dx1 * i + dx1) by (nonlinear_arith);
            assert(dy1 * (i + 1) == dy1 * i + dy1) by (nonlinear_arith);
            assert(dx1 * (k + 1) == dx1 * k + dx1) by (nonlinear_arith);
            assert(dy1 * (k + 1) == dy1 * k + dy1) by (nonlinear_arith);
            assert((k + 1) * self.steps == k * self.steps + self.steps) by (nonlinear_arith);
            lemma_risen_bound(i, minor as int, self.steps as int);
        }
        if horizontal {
            bb.destX = bb.destX + dx1;
        } else {
            bb.destY = bb.destY + dy1;
        }
        self.left = self.left - minor;
        if self.left < 0 {
            if horizontal {
                bb.destY = bb.destY + dy1;
            } else {
                bb.destX = bb.destX + dx1;
            }
            self.left = self.left + self.steps;
            self.rise = self.rise + 1;
        }
        self.step = self.step + 1;
        self.step < self.steps
    }
}

/// A line does not rise by more than it is long.
pub(crate) proof fn lemma_risen_bound(i: int, minor: int, major: int)
    requires
        0 <= i <= major,
        0 <= minor <= major,
        0 < major,
    ensures
        0 <= risen(i, minor, major) <= major,
{
    let rest = major - 1 - major / 2;
    let a = i * minor + rest;
    assert(0 <= a / major <= major) by (nonlinear_arith)
        requires
            a == i * minor + rest,
            0 <= i <= major,
            0 <= minor <= major,
            0 <= rest < major,
            0 < major,
    ;
}

fn signOf(d: sqInt) -> (r: sqInt)
    ensures
        r == sign(d as int),
{
    if d > 0 {
        1
    } else if d < 0 {
        -1
    } else {
        0
    }
}

fn magnitudeOf(d: sqInt) -> (r: sqInt)
    requires
        d != sqInt::MIN,
    ensures
        r == magnitude(d as int),
{
    if d < 0 {
        -d
    } else {
        d
    }
}

// ---- What a line changes --------------------------------------------------

/// The rectangle that the blits along a line have changed since it was last
/// shown.
#[derive(Debug, Clone, Copy, PartialEq, Eq, Structural)]
pub struct Span {
    pub left: sqInt,
    pub right: sqInt,
    pub top: sqInt,
    pub bottom: sqInt,
}

/// The coordinates of a changed rectangle are those of pixels.
pub open spec fn pixel_range(v: int) -> bool {
    0 <= v <= 0x8000_0000
}

impl BitBlt {
    /// The last blit changed something.
    pub open spec fn affects(self) -> bool {
        self.affectedL < self.affectedR && self.affectedT < self.affectedB
    }

    /// The last blit changed nothing, or pixels.
    pub open spec fn affected_in_range(self) -> bool {
        self.affects() ==> {
            &&& pixel_range(self.affectedL as int)
            &&& pixel_range(self.affectedR as int)
            &&& pixel_range(self.affectedT as int)
            &&& pixel_range(self.affectedB as int)
        }
    }

    /// The registers with the affected rectangle set to a span.
    pub open spec fn with_affected_span(self, s: Span) -> BitBlt {
        BitBlt {
            affectedL: s.left,
            affectedR: s.right,
            affectedT: s.top,
            affectedB: s.bottom,
            ..self
        }
    }

    fn setAffectedSpan(&mut self, s: Span)
        ensures
            *final(self) == old(self).with_affected_span(s),
    {
        self.affectedL = s.left;
        self.affectedR = s.right;
        self.affectedT = s.top;
        self.affectedB = s.bottom;
    }
}

impl Span {
    /// No rectangle: it is inside out.
    pub open spec fn none() -> Span {
        Span { left: 9999, right: (-9999) as sqInt, top: 9999, bottom: (-9999) as sqInt }
    }

    /// No rectangle yet.
    pub fn new() -> (r: Span)
        ensures
            r == Span::none(),
    {
        Span { left: 9999, right: -9999, top: 9999, bottom: -9999 }
    }

    /// The span is none, or of pixels.
    pub open spec fn inv(self) -> bool {
        &&& -9999 <= self.left <= 0x8000_0000
        &&& -9999 <= self.right <= 0x8000_0000
        &&& -9999 <= self.top <= 0x8000_0000
        &&& -9999 <= self.bottom <= 0x8000_0000
    }

    /// The span and what the last blit changed.
    pub open spec fn joined(self, bb: BitBlt) -> Span {
        Span {
            left: if self.left <= bb.affectedL {
                self.left
            } else {
                bb.affectedL
            },
            right: if self.right >= bb.affectedR {
                self.right
            } else {
                bb.affectedR
            },
            top: if self.top <= bb.affectedT {
                self.top
            } else {
                bb.affectedT
            },
            bottom: if self.bottom >= bb.affectedB {
                self.bottom
            } else {
                bb.affectedB
            },
        }
    }

    /// The area that the span covers.
    pub open spec fn area(self) -> int {
        (self.right - self.left) * (self.bottom - self.top)
    }

    /// The span and the registers after a blit. A span that has become large is
    /// put into the registers, to be shown, and a new one is begun.
    pub open spec fn after_blit(self, bb: BitBlt) -> (Span, BitBlt) {
        if !bb.affects() {
            (self, bb)
        } else if self.joined(bb).area() > 4000 {
            (Span::none(), bb.with_affected_span(self.joined(bb)))
        } else {
            (self.joined(bb), bb)
        }
    }

    /// Takes account of a blit. Answers whether the affected rectangle has become
    /// large and is to be shown.
    pub fn grow(&mut self, bb: &mut BitBlt) -> (r: bool)
        requires
            old(self).inv(),
            old(bb).affected_in_range(),
        ensures
            (*final(self), *final(bb)) == old(self).after_blit(*old(bb)),
            final(self).inv(),
            r == (old(bb).affects() && old(self).joined(*old(bb)).area() > 4000),
    {
        if !(bb.affectedL < bb.affectedR && bb.affectedT < bb.affectedB) {
            return false;
        }
        if bb.affectedL < self.left {
            self.left = bb.affectedL;
        }
        if bb.affectedR > self.right {
            self.right = bb.affectedR;
        }
        if bb.affectedT < self.top {
            self.top = bb.affectedT;
        }
        if bb.affectedB > self.bottom {
            self.bottom = bb.affectedB;
        }
        proof {
            let (w, h) = (self.right - self.left, self.bottom - self.top);
            assert(-0x1_0000_0000_0000_0000 < w * h) by (nonlinear_arith)
                requires
                    0 <= w <= 0x8000_270F,
                    0 <= h <= 0x8000_270F,
            ;
            assert(w * h <= 0x8000_270F * 0x8000_270F) by (nonlinear_arith)
                requires
                    0 <= w <= 0x8000_270F,
                    0 <= h <= 0x8000_270F,
            ;
            assert(0 <= w * h) by (nonlinear_arith)
                requires
                    0 <= w,
                    0 <= h,
            ;
        }
        if (self.right - self.left) * (self.bottom - self.top) > 4000 {
            bb.setAffectedSpan(*self);
            *self = Span::new();
            true
        } else {
            false
        }
    }
}

// ---- Lines ----------------------------------------------------------------

/// A line under way.
pub struct LineState {
    pub bb: BitBlt,
    pub mem: Seq<u8>,
    pub span: Span,
    /// No blit has been refused.
    pub ok: bool,
}

impl BitBlt {
    /// The registers with the blit moved to point `i` of the line from `start`.
    pub open spec fn at_point(self, start: BitBlt, xd: int, yd: int, i: int) -> BitBlt {
        let (x, y) = line_offset(xd, yd, i);
        BitBlt { destX: (start.destX + x) as sqInt, destY: (start.destY + y) as sqInt, ..self }
    }

    /// The line after `i` steps: a blit at every point between its ends.
    pub open spec fn line_state(self, m: Seq<u8>, a: BlitArgs, xd: int, yd: int, i: int) -> LineState
        decreases i,
    {
        if i <= 0 {
            LineState { bb: self, mem: m, span: Span::none(), ok: true }
        } else {
            let q = self.line_state(m, a, xd, yd, i - 1);
            let there = q.bb.at_point(self, xd, yd, i);
            if !q.ok {
                q
            } else if i >= line_steps(xd, yd) {
                LineState { bb: there, ..q }
            } else {
                let (blit, ok) = there.copied_bits(q.mem, a);
                if !ok {
                    LineState { bb: blit.bb, mem: blit.mem, span: q.span, ok: false }
                } else {
                    let (span, bb) = q.span.after_blit(blit.bb);
                    LineState { bb, mem: blit.mem, span, ok: true }
                }
            }
        }
    }

    /// Every blit along the line can be carried out.
    pub open spec fn line_ok(self, m: Seq<u8>, a: BlitArgs, xd: int, yd: int) -> bool {
        &&& line_delta_ok(xd)
        &&& line_delta_ok(yd)
        &&& -0x4000_0000_0000_0000 <= self.destX <= 0x4000_0000_0000_0000
        &&& -0x4000_0000_0000_0000 <= self.destY <= 0x4000_0000_0000_0000
        &&& forall|i: int|
            0 < i < line_steps(xd, yd) && (#[trigger] self.line_state(m, a, xd, yd, i - 1)).ok
                ==> {
                let q = self.line_state(m, a, xd, yd, i - 1);
                let there = q.bb.at_point(self, xd, yd, i);
                &&& there.copy_bits_ok(q.mem.len(), a)
                &&& there.copied_bits(q.mem, a).0.bb.affected_in_range()
            }
    }

    /// The registers after the whole line.
    pub open spec fn after_line(self, q: LineState) -> BitBlt {
        if q.ok {
            q.bb.with_affected_span(q.span)
        } else {
            q.bb
        }
    }

    /// Draws a line by blitting at every point between its ends. Answers whether
    /// the arguments of the blit are as they should be.
    pub fn drawLoopXY(
        &mut self,
        mem: &mut Memory,
        a: &BlitArgs,
        xDelta: sqInt,
        yDelta: sqInt,
    ) -> (r: bool)
        requires
            old(self).line_ok(old(mem)@, *a, xDelta as int, yDelta as int),
        ensures
            ({
                let q = old(self).line_state(
                    old(mem)@,
                    *a,
                    xDelta as int,
                    yDelta as int,
                    line_steps(xDelta as int, yDelta as int),
                );
                &&& r == q.ok
                &&& final(mem)@ == q.mem
                &&& *final(self) == old(self).after_line(q)
            }),
            final(mem)@.len() == old(mem)@.len(),
    {
        let ghost bb = *self;
        let ghost m = mem@;
        let ghost xd = xDelta as int;
        let ghost yd = yDelta as int;
        let mut line: Line = Line::new(xDelta, yDelta);
        let mut span: Span = Span::new();
        proof {
            lemma_offset_bound(xd, yd, 0);
        }
        while line.step < line.steps
            invariant
                bb == *old(self),
                m == old(mem)@,
                xd == xDelta,
                yd == yDelta,
                bb.line_ok(m, *a, xd, yd),
                line.inv(),
                line.xDelta == xDelta,
                line.yDelta == yDelta,
                span.inv(),
                mem@.len() == m.len(),
                ({
                    let q = bb.line_state(m, *a, xd, yd, line.step as int);
                    &&& q.ok
                    &&& q.mem == mem@
                    &&& q.bb == *self
                    &&& q.span == span
                }),
                line.steps > 0 ==> ({
                    let (x, y) = line_offset(xd, yd, line.step as int);
                    &&& self.destX == bb.destX + x
                    &&& self.destY == bb.destY + y
                }),
            decreases line.steps - line.step,
        {
            let ghost i = line.step + 1;
            let ghost q = bb.line_state(m, *a, xd, yd, i - 1);
            proof {
                lemma_offset_bound(xd, yd, i - 1);
                lemma_offset_bound(xd, yd, i);
            }
            let here: bool = line.advance(self);
            assert(*self == q.bb.at_point(bb, xd, yd, i));
            if here {
                let ghost there = *self;
                assert(there.copy_bits_ok(q.mem.len(), *a));
                let ok: bool = self.copyBits(mem, a);
                if !ok {
                    proof {
                        bb.lemma_line_stopped(m, *a, xd, yd, i, line.steps as int);
                    }
                    return false;
                }
                proof {
                    there.lemma_copied_bits_keeps_place(q.mem, *a);
                }
                let _shown: bool = span.grow(self);
            }
        }
        self.setAffectedSpan(span);
        true
    }

    /// A blit does not move itself.
    proof fn lemma_copied_bits_keeps_place(self, m: Seq<u8>, a: BlitArgs)
        ensures
            self.copied_bits(m, a).0.bb.destX == self.destX,
            self.copied_bits(m, a).0.bb.destY == self.destY,
    {
        reveal(BitBlt::looped);
    }

    /// A line that was refused stays refused.
    pub(crate) proof fn lemma_line_stopped(self, m: Seq<u8>, a: BlitArgs, xd: int, yd: int, i: int, n: int)
        requires
            0 <= i <= n,
            !self.line_state(m, a, xd, yd, i).ok,
        ensures
            self.line_state(m, a, xd, yd, n) == self.line_state(m, a, xd, yd, i),
        decreases n - i,
    {
        if i < n {
            self.lemma_line_stopped(m, a, xd, yd, i, n - 1);
        }
    }
}

/// No point of a line is further from its start than its end could be.
pub(crate) proof fn lemma_offset_bound(xd: int, yd: int, i: int)
    requires
        line_delta_ok(xd),
        line_delta_ok(yd),
        0 <= i <= line_steps(xd, yd),
    ensures
        line_steps(xd, yd) > 0 ==> {
            let (x, y) = line_offset(xd, yd, i);
            &&& -0x2000_0000_0000_0000 <= x <= 0x2000_0000_0000_0000
            &&& -0x2000_0000_0000_0000 <= y <= 0x2000_0000_0000_0000
            &&& i == 0 ==> x == 0 && y == 0
        },
{
    let n = line_steps(xd, yd);
    if n > 0 {
        let minor = if magnitude(xd) > magnitude(yd) {
            magnitude(yd)
        } else {
            magnitude(xd)
        };
        lemma_risen_bound(i, minor, n);
        let k = risen(i, minor, n);
        if i == 0 {
            assert(0 * minor == 0);
            assert((n - 1 - n / 2) / n == 0) by (nonlinear_arith)
                requires
                    0 < n,
            ;
        }
        assert(-n <= sign(xd) * i <= n && -n <= sign(yd) * i <= n && -n <= sign(xd) * k <= n && -n
            <= sign(yd) * k <= n && sign(xd) * 0 == 0 && sign(yd) * 0 == 0) by (nonlinear_arith)
            requires
                -1 <= sign(xd) <= 1,
                -1 <= sign(yd) <= 1,
                0 <= i <= n,
                0 <= k <= n,
        ;
    }
}

} // verus!
