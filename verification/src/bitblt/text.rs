//! Displaying strings glyph by glyph.
use vstd::prelude::*;
use crate::prim::{sqInt, PrimErr, PrimResult};
use crate::bitblt::memory::Memory;
use crate::bitblt::state::BitBlt;
use crate::bitblt::blit::{or_zero, BlitArgs};
use crate::bitblt::engine::Picture;
use crate::bitblt::load::small;
use crate::bitblt::surface::{LockEvent, LockState};

verus! {

broadcast use crate::bitblt::memory::group_memory;

/// A string to display: its bytes from `start` to `stop`, counted from 1. The
/// glyph map has the glyph of every byte, the x table the left edge of every
/// glyph in the source and the right edge of the last. A slot that is not an
/// integer is nothing.
pub struct Text {
    pub bytes: Seq<u8>,
    pub start: int,
    pub stop: int,
    pub glyphs: Seq<Option<sqInt>>,
    pub edges: Seq<Option<sqInt>>,
    pub kern: int,
}

/// A string being displayed.
pub struct TextState {
    pub bb: BitBlt,
    pub mem: Seq<u8>,
    /// Nothing has gone wrong.
    pub ok: bool,
}

impl Text {
    /// The indices are within the string and every byte has a glyph.
    pub open spec fn is_sound(self) -> bool {
        &&& self.glyphs.len() == 256
        &&& 0 < self.start
        &&& 0 <= self.stop <= self.bytes.len()
    }

    /// The characters to display.
    pub open spec fn count(self) -> int {
        if self.stop < self.start {
            0
        } else {
            self.stop - self.start + 1
        }
    }

    /// The glyph slot of character `n`.
    pub open spec fn glyph(self, n: int) -> Option<sqInt> {
        self.glyphs[self.bytes[self.start - 1 + n] as int]
    }

    /// The x table has the edges of this glyph.
    pub open spec fn has_glyph(self, g: int) -> bool {
        0 <= g <= self.edges.len() - 2
    }

    /// How far the first `n` characters reach: the widths of their glyphs, each
    /// with the kerning.
    pub open spec fn advance(self, n: int) -> int
        decreases n,
    {
        if n <= 0 {
            0
        } else {
            let g = or_zero(self.glyph(n - 1)) as int;
            self.advance(n - 1) + (or_zero(self.edges[g + 1]) - or_zero(self.edges[g]))
                + self.kern
        }
    }
}

impl BitBlt {
    /// The glyphs can go straight to the general loop: there is no short cut for
    /// them, and no overlap.
    pub open spec fn is_quick_text(self) -> bool {
        &&& self.destBits != 0
        &&& self.sourceBits != 0
        &&& !self.noSource
        &&& self.sourceForm != self.destForm
        &&& self.needs_pixmap()
    }

    /// The registers set to the glyph between two edges.
    pub open spec fn with_glyph(self, l: Option<sqInt>, r: Option<sqInt>) -> BitBlt {
        BitBlt {
            sourceX: or_zero(l),
            width: (or_zero(r) - or_zero(l)) as sqInt,
            ..self
        }
    }

    /// A glyph sent straight to the general loop.
    pub open spec fn quick_glyph(self, m: Seq<u8>) -> TextState {
        let set = self.with_dest_masks();
        let p = set.pix_rows(Picture { mem: m, count: set.bitCount as int }, set.bbH as int);
        TextState { bb: set.pix_mapped(p).with_affected_blit(), mem: p.mem, ok: true }
    }

    /// A glyph drawn, its rectangle already set.
    #[verifier::opaque]
    pub open spec fn drawn_glyph(self, m: Seq<u8>, a: BlitArgs, quick: bool) -> TextState {
        let c = self.clipped();
        if c.is_empty_blit() {
            TextState { bb: c, mem: m, ok: true }
        } else if quick {
            c.quick_glyph(m)
        } else {
            let (blit, ok) = c.locked_blit(m, a);
            TextState { bb: blit.bb, mem: blit.mem, ok }
        }
    }

    /// A glyph can be drawn on a memory of this size.
    #[verifier::opaque]
    pub open spec fn glyph_ok(self, size: nat, a: BlitArgs, quick: bool) -> bool {
        let c = self.clipped();
        &&& self.clip_fits()
        &&& !c.is_empty_blit() ==> if quick {
            &&& c.dest_wf()
            &&& c.with_dest_masks().pix_ok(size, c.bitCount as int)
        } else {
            c.locked_ok(size, a)
        }
    }

    /// One character displayed.
    pub open spec fn text_step(self, q: TextState, t: Text, a: BlitArgs, n: int) -> TextState {
        let g = or_zero(t.glyph(n)) as int;
        if !q.ok {
            q
        } else if !t.has_glyph(g) {
            TextState { ok: false, ..q }
        } else {
            let (l, r) = (t.edges[g], t.edges[g + 1]);
            let set = q.bb.with_glyph(l, r);
            if t.glyph(n) is None || l is None || r is None {
                TextState { bb: set, mem: q.mem, ok: false }
            } else {
                let drawn = set.drawn_glyph(q.mem, a, self.is_quick_text());
                if drawn.ok {
                    TextState {
                        bb: BitBlt {
                            destX: (drawn.bb.destX + drawn.bb.width + t.kern) as sqInt,
                            ..drawn.bb
                        },
                        ..drawn
                    }
                } else {
                    drawn
                }
            }
        }
    }

    /// The registers as displaying starts.
    pub open spec fn text_begun(self) -> BitBlt {
        if self.is_quick_text() {
            self.with_ends()
        } else {
            self.begun()
        }
    }

    /// The first `n` characters displayed.
    pub open spec fn text_state(self, m: Seq<u8>, t: Text, a: BlitArgs, n: int) -> TextState
        decreases n,
    {
        if n <= 0 {
            TextState { bb: self.text_begun(), mem: m, ok: true }
        } else {
            self.text_step(self.text_state(m, t, a, n - 1), t, a, n - 1)
        }
    }

    /// Every glyph can be drawn.
    pub open spec fn text_ok(self, m: Seq<u8>, t: Text, a: BlitArgs) -> bool {
        &&& self.addressed()
        &&& self.shared_fits()
        &&& forall|i: int| 0 <= i < t.edges.len() ==> small(or_zero(#[trigger] t.edges[i]) as int)
        &&& forall|n: int|
            0 <= n < t.count() && (#[trigger] self.text_state(m, t, a, n)).ok && t.has_glyph(
                or_zero(t.glyph(n)) as int,
            ) ==> {
                let g = or_zero(t.glyph(n)) as int;
                let q = self.text_state(m, t, a, n);
                let set = q.bb.with_glyph(t.edges[g], t.edges[g + 1]);
                &&& set.glyph_ok(q.mem.len(), a, self.is_quick_text())
                &&& sqInt::MIN <= set.destX + set.width <= sqInt::MAX
                &&& sqInt::MIN <= set.destX + set.width + t.kern <= sqInt::MAX
            }
    }

    /// Draws a glyph whose rectangle is already set.
    fn drawGlyph(&mut self, mem: &mut Memory, a: &BlitArgs, quick: bool) -> (r: bool)
        requires
            old(self).glyph_ok(old(mem)@.len(), *a, quick),
        ensures
            ({
                let done = old(self).drawn_glyph(old(mem)@, *a, quick);
                &&& r == done.ok
                &&& *final(self) == done.bb
                &&& final(mem)@ == done.mem
                &&& final(mem)@.len() == old(mem)@.len()
            }),
    {
        reveal(BitBlt::drawn_glyph);
        reveal(BitBlt::glyph_ok);
        self.clipRange();
        if self.bbW > 0 && self.bbH > 0 {
            if quick {
                self.destMaskAndPointerInit();
                self.copyLoopPixMap(mem);
                self.setAffectedToBlitRect();
                true
            } else {
                self.copyBitsLockedAndClipped(mem, a)
            }
        } else {
            true
        }
    }

    /// Drawing a glyph does not move the blit.
    proof fn lemma_glyph_stays(self, m: Seq<u8>, a: BlitArgs, quick: bool)
        ensures
            self.drawn_glyph(m, a, quick).bb.destX == self.destX,
            self.drawn_glyph(m, a, quick).bb.width == self.width,
    {
        reveal(BitBlt::drawn_glyph);
        reveal(BitBlt::looped);
    }

    /// Displays one character.
    fn displayGlyph(
        &mut self,
        mem: &mut Memory,
        slot: Option<sqInt>,
        xTable: &Vec<Option<sqInt>>,
        kernDelta: sqInt,
        a: &BlitArgs,
        quick: bool,
        Ghost(bb): Ghost<BitBlt>,
        Ghost(m): Ghost<Seq<u8>>,
        Ghost(t): Ghost<Text>,
        Ghost(n): Ghost<int>,
    ) -> (ok: bool)
        requires
            bb.text_ok(m, t, *a),
            0 <= n < t.count(),
            t.edges == xTable@,
            t.kern == kernDelta,
            slot == t.glyph(n),
            quick == bb.is_quick_text(),
            bb.text_state(m, t, *a, n) == (TextState {
                bb: *old(self),
                mem: old(mem)@,
                ok: true,
            }),
        ensures
            bb.text_state(m, t, *a, n + 1) == (TextState { bb: *final(self), mem: final(mem)@, ok }),
            final(mem)@.len() == old(mem)@.len(),
    {
        let ghost q = bb.text_state(m, t, *a, n);
        let glyphIndex: sqInt = match slot {
            Some(g) => g,
            None => 0,
        };
        let size: u64 = xTable.len() as u64;
        if glyphIndex < 0 || size < 2 || (glyphIndex as u64) > size - 2 {
            return false;
        }
        let l: Option<sqInt> = xTable[glyphIndex as usize];
        let r: Option<sqInt> = xTable[glyphIndex as usize + 1];
        let leftEdge: sqInt = match l {
            Some(x) => x,
            None => 0,
        };
        let rightEdge: sqInt = match r {
            Some(x) => x,
            None => 0,
        };
        assert(small(or_zero(t.edges[glyphIndex as int]) as int));
        assert(small(or_zero(t.edges[glyphIndex + 1]) as int));
        self.sourceX = leftEdge;
        self.width = rightEdge - leftEdge;
        let ghost set = *self;
        assert(set == q.bb.with_glyph(l, r));
        if slot.is_none() || l.is_none() || r.is_none() {
            return false;
        }
        if !self.drawGlyph(mem, a, quick) {
            return false;
        }
        proof {
            set.lemma_glyph_stays(q.mem, *a, quick);
        }
        self.destX = self.destX + self.width + kernDelta;
        true
    }

    /// The registers after the whole string: the affected rectangle starts where
    /// the string does.
    pub open spec fn after_text(self, q: TextState) -> BitBlt {
        BitBlt { affectedL: self.destX, ..q.bb }
    }

    /// Displays a string. Fails where the arguments are not as they should be,
    /// where a byte has no glyph, and where a slot is not an integer.
    pub fn displayString(
        &mut self,
        mem: &mut Memory,
        bytes: &Vec<u8>,
        startIndex: sqInt,
        stopIndex: sqInt,
        glyphMap: &Vec<Option<sqInt>>,
        xTable: &Vec<Option<sqInt>>,
        kernDelta: sqInt,
        a: &BlitArgs,
    ) -> (r: PrimResult<()>)
        requires
            ({
                let t = Text {
                    bytes: bytes@,
                    start: startIndex as int,
                    stop: stopIndex as int,
                    glyphs: glyphMap@,
                    edges: xTable@,
                    kern: kernDelta as int,
                };
                t.is_sound() && t.stop > 0 ==> old(self).text_ok(old(mem)@, t, *a)
            }),
        ensures
            ({
                let t = Text {
                    bytes: bytes@,
                    start: startIndex as int,
                    stop: stopIndex as int,
                    glyphs: glyphMap@,
                    edges: xTable@,
                    kern: kernDelta as int,
                };
                let q = old(self).text_state(old(mem)@, t, *a, t.count());
                if !t.is_sound() || old(self).combinationRule == 30 || old(self).combinationRule
                    == 31 {
                    &&& r == Err::<(), PrimErr>(PrimErr::GenericFailure)
                    &&& *final(self) == *old(self)
                    &&& final(mem)@ == old(mem)@
                } else if t.stop == 0 {
                    &&& r == Ok::<(), PrimErr>(())
                    &&& *final(self) == *old(self)
                    &&& final(mem)@ == old(mem)@
                } else if q.ok {
                    &&& r == Ok::<(), PrimErr>(())
                    &&& *final(self) == old(self).after_text(q)
                    &&& final(mem)@ == q.mem
                } else {
                    &&& r == Err::<(), PrimErr>(PrimErr::GenericFailure)
                    &&& *final(self) == q.bb
                    &&& final(mem)@ == q.mem
                }
            }),
            final(mem)@.len() == old(mem)@.len(),
    {
        let ghost t = Text {
            bytes: bytes@,
            start: startIndex as int,
            stop: stopIndex as int,
            glyphs: glyphMap@,
            edges: xTable@,
            kern: kernDelta as int,
        };
        let ghost bb = *self;
        let ghost m = mem@;
        if !(glyphMap.len() == 256 && startIndex > 0 && stopIndex >= 0 && (stopIndex as u64)
            <= bytes.len() as u64 && self.combinationRule != 30 && self.combinationRule != 31) {
            return Err(PrimErr::GenericFailure);
        }
        if stopIndex == 0 {
            return Ok(());
        }
        let quick: bool = self.destBits != 0 && self.sourceBits != 0 && !self.noSource
            && self.sourceForm != self.destForm && (self.cmFlags != 0 || self.sourceMSB
            != self.destMSB || self.sourceDepth != self.destDepth);
        let hadLock: bool = self.hasSurfaceLock;
        proof {
            bb.lemma_addressed_forms_need_no_lock();
        }
        let _step = self.lockSurfaces(LockState::Start, LockEvent::Begin);
        if quick {
            self.hasSurfaceLock = hadLock;
        }
        assert(*self == bb.text_begun());
        let left: sqInt = self.destX;
        let size: usize = bytes.len();
        let mut charIndex: u64 = startIndex as u64;
        while charIndex <= stopIndex as u64
            invariant
                bb == *old(self),
                m == old(mem)@,
                t == (Text {
                    bytes: bytes@,
                    start: startIndex as int,
                    stop: stopIndex as int,
                    glyphs: glyphMap@,
                    edges: xTable@,
                    kern: kernDelta as int,
                }),
                t.is_sound(),
                t.stop > 0,
                bb.combinationRule != 30,
                bb.combinationRule != 31,
                bb.text_ok(m, t, *a),
                quick == bb.is_quick_text(),
                left == bb.destX,
                size == bytes@.len(),
                0 < startIndex <= charIndex,
                charIndex <= stopIndex + 1 || charIndex == startIndex,
                mem@.len() == m.len(),
                bb.text_state(m, t, *a, charIndex - startIndex) == (TextState {
                    bb: *self,
                    mem: mem@,
                    ok: true,
                }),
            decreases stopIndex + 1 - charIndex,
        {
            let ghost n = charIndex - startIndex;
            let ascii: u8 = bytes[(charIndex - 1) as usize];
            let slot: Option<sqInt> = glyphMap[ascii as usize];
            assert(slot == t.glyph(n));
            let ok: bool = self.displayGlyph(
                mem,
                slot,
                xTable,
                kernDelta,
                a,
                quick,
                Ghost(bb),
                Ghost(m),
                Ghost(t),
                Ghost(n),
            );
            if !ok {
                proof {
                    bb.lemma_text_stopped(m, t, *a, n + 1, t.count());
                }
                return Err(PrimErr::GenericFailure);
            }
            charIndex = charIndex + 1;
        }
        self.affectedL = left;
        Ok(())
    }

    /// Each character is displayed where the one before ended.
    pub proof fn lemma_text_advances(self, m: Seq<u8>, t: Text, a: BlitArgs, n: int)
        requires
            self.text_ok(m, t, a),
            0 <= n <= t.count(),
            self.text_state(m, t, a, n).ok,
        ensures
            self.text_state(m, t, a, n).bb.destX == self.destX + t.advance(n),
        decreases n,
    {
        if n > 0 {
            let q = self.text_state(m, t, a, n - 1);
            assert(q.ok);
            self.lemma_text_advances(m, t, a, n - 1);
            let g = or_zero(t.glyph(n - 1)) as int;
            assert(t.has_glyph(g));
            assert(small(or_zero(t.edges[g]) as int) && small(or_zero(t.edges[g + 1]) as int));
            let set = q.bb.with_glyph(t.edges[g], t.edges[g + 1]);
            set.lemma_glyph_stays(q.mem, a, self.is_quick_text());
        }
    }

    /// A string that went wrong stays wrong.
    proof fn lemma_text_stopped(self, m: Seq<u8>, t: Text, a: BlitArgs, i: int, n: int)
        requires
            0 <= i <= n,
            !self.text_state(m, t, a, i).ok,
        ensures
            self.text_state(m, t, a, n) == self.text_state(m, t, a, i),
        decreases n - i,
    {
        if i < n {
            self.lemma_text_stopped(m, t, a, i, n - 1);
        }
    }
}

} // verus!
