//! Choosing how a clipped blit is carried out, and what rectangle it changed.
use vstd::prelude::*;
use crate::prim::sqInt;
use crate::bitblt::memory::Memory;
use crate::bitblt::state::{BitBlt, COLOR_MAP_PRESENT};
use crate::bitblt::engine::Picture;
use crate::bitblt::blend::scan;

verus! {

broadcast use crate::bitblt::memory::group_memory;

/// The registers and the memory together.
pub struct Blit {
    pub bb: BitBlt,
    pub mem: Seq<u8>,
}

impl BitBlt {
    // ---- The short cuts ---------------------------------------------------

    /// A short cut for rule 34 or 41 takes this blit: it comes from another
    /// form, of 32 bits, and the destination has a depth the rule has a short
    /// cut for. At 8 bits rule 34 needs a color map.
    pub open spec fn is_quick(self) -> bool {
        &&& !self.noSource
        &&& self.sourceDepth == 32
        &&& self.sourceForm != self.destForm
        &&& if self.combinationRule == 41 {
            self.destDepth == 32 || self.destDepth == 16 || self.destDepth == 8
        } else {
            self.combinationRule == 34 && self.destDepth >= 8 && (self.destDepth == 8
                ==> self.cmFlags & COLOR_MAP_PRESENT != 0)
        }
    }

    /// What a short cut reads and writes is there.
    pub open spec fn quick_ok(self, size: nat) -> bool {
        self.is_quick() ==> {
            &&& self.rect_ok()
            &&& self.source32_ok(size)
            &&& self.destDepth == 32 ==> self.dest32_ok(size)
            &&& self.destDepth == 16 ==> self.dest16_ok(size)
            &&& self.destDepth == 8 ==> self.map_ok(size, self.mapper_flags())
            &&& self.destDepth == 8 && self.combinationRule == 34 ==> self.dest8_ok(size)
            &&& self.combinationRule == 41 ==> self.gammas_ok(size)
            &&& self.destDepth == 8 && self.combinationRule == 41 ==> self.component8_ok(size)
        }
    }

    /// What a short cut does to one pixel. Depths other than 8, 16 and 32 are
    /// left as they are.
    pub open spec fn quick_pixel(self, m: Seq<u8>, j: int, i: int) -> Seq<u8> {
        if self.combinationRule == 41 {
            if self.destDepth == 32 {
                self.component32_pixel(m, j, i)
            } else if self.destDepth == 16 {
                self.component16_pixel(m, j, i)
            } else {
                self.component8_pixel(m, j, i)
            }
        } else {
            if self.destDepth == 32 {
                self.blend32_pixel(m, j, i)
            } else if self.destDepth == 16 {
                self.blend16_pixel(m, j, i)
            } else if self.destDepth == 8 {
                self.blend8_pixel(m, j, i)
            } else {
                m
            }
        }
    }

    /// The whole blit by a short cut.
    pub open spec fn quick_memory(self, m: Seq<u8>) -> Seq<u8> {
        scan(
            |x: Seq<u8>, j: int, i: int| self.quick_pixel(x, j, i),
            m,
            self.bbW as int,
            self.bbH as int,
            0,
        )
    }

    /// The registers with the affected rectangle set to the clipped blit.
    pub open spec fn with_affected_blit(self) -> BitBlt {
        BitBlt {
            affectedL: self.dx as sqInt,
            affectedR: (self.dx + self.bbW) as sqInt,
            affectedT: self.dy as sqInt,
            affectedB: (self.dy + self.bbH) as sqInt,
            ..self
        }
    }

    /// The registers after a short cut.
    pub open spec fn after_quick(self) -> BitBlt {
        (if self.destDepth == 16 {
            BitBlt { mask1: self.other_half_mask(), ..self }
        } else if self.destDepth == 8 {
            self.with_byte_masks()
        } else {
            self
        }).with_affected_blit()
    }

    pub(crate) fn setAffectedToBlitRect(&mut self)
        ensures
            *final(self) == old(self).with_affected_blit(),
    {
        self.affectedL = self.dx as sqInt;
        self.affectedR = self.dx as sqInt + self.bbW as sqInt;
        self.affectedT = self.dy as sqInt;
        self.affectedB = self.dy as sqInt + self.bbH as sqInt;
    }

    /// Carries the blit out by a short cut, if there is one for it. Answers
    /// whether there was.
    pub fn tryCopyingBitsQuickly(&mut self, mem: &mut Memory) -> (r: bool)
        requires
            old(self).quick_ok(old(mem)@.len()),
        ensures
            r == old(self).is_quick(),
            r ==> final(mem)@ == old(self).quick_memory(old(mem)@) && *final(self) == old(
                self,
            ).after_quick(),
            !r ==> final(mem)@ == old(mem)@ && *final(self) == *old(self),
            final(mem)@.len() == old(mem)@.len(),
    {
        let ghost bb = *self;
        let ghost before = mem@;
        let ghost f = |x: Seq<u8>, j: int, i: int| bb.quick_pixel(x, j, i);
        if self.noSource {
            return false;
        }
        if !(self.combinationRule == 34 || self.combinationRule == 41) {
            return false;
        }
        if self.sourceDepth != 32 {
            return false;
        }
        if self.sourceForm == self.destForm {
            return false;
        }
        if self.combinationRule == 41 {
            if self.destDepth == 32 {
                assert(f =~= (|m: Seq<u8>, j: int, i: int| bb.component32_pixel(m, j, i)));
                self.rgbComponentAlpha32(mem);
            } else if self.destDepth == 16 {
                assert(f =~= (|m: Seq<u8>, j: int, i: int| bb.component16_pixel(m, j, i)));
                self.rgbComponentAlpha16(mem);
            } else if self.destDepth == 8 {
                assert(f =~= (|m: Seq<u8>, j: int, i: int| bb.component8_pixel(m, j, i)));
                self.rgbComponentAlpha8(mem);
            } else {
                return false;
            }
            self.setAffectedToBlitRect();
            return true;
        }
        if self.destDepth < 8 {
            return false;
        }
        if self.destDepth == 8 && (self.cmFlags & COLOR_MAP_PRESENT) == 0 {
            return false;
        }
        if self.destDepth == 32 {
            assert(f =~= (|m: Seq<u8>, j: int, i: int| bb.blend32_pixel(m, j, i)));
            self.alphaSourceBlendBits32(mem);
        } else if self.destDepth == 16 {
            assert(f =~= (|m: Seq<u8>, j: int, i: int| bb.blend16_pixel(m, j, i)));
            self.alphaSourceBlendBits16(mem);
        } else if self.destDepth == 8 {
            assert(f =~= (|m: Seq<u8>, j: int, i: int| bb.blend8_pixel(m, j, i)));
            self.alphaSourceBlendBits8(mem);
        } else {
            proof {
                lemma_scan_idle(f, before, bb.bbW as int, bb.bbH as int, 0);
            }
        }
        self.setAffectedToBlitRect();
        true
    }

    // ---- The copy loops ---------------------------------------------------

    /// The blit has to go pixel by pixel: the depths or the bit orders differ,
    /// or there is a color map.
    pub open spec fn needs_pixmap(self) -> bool {
        self.sourceDepth != self.destDepth || self.cmFlags != 0 || self.sourceMSB != self.destMSB
    }

    /// Moving the origin to the far end of the blit stays within 32 bits.
    pub open spec fn direction_fits(self) -> bool {
        &&& self.copies_upwards() ==> i32::MIN < self.sy + self.bbH <= i32::MAX && i32::MIN
            < self.dy + self.bbH <= i32::MAX
        &&& self.copies_leftwards() ==> i32::MIN < self.sx + self.bbW <= i32::MAX && i32::MIN
            < self.dx + self.bbW <= i32::MAX
    }

    /// The registers as the loop that is chosen finds them.
    pub open spec fn loop_registers(self) -> BitBlt {
        let set = self.with_dest_masks();
        if self.noSource {
            set
        } else if self.needs_pixmap() {
            set.with_direction()
        } else {
            set.with_direction().with_skew()
        }
    }

    /// The loop that is chosen can run on a memory of this size.
    #[verifier::opaque]
    pub open spec fn loop_ok(self, size: nat) -> bool {
        let set = self.loop_registers();
        &&& self.dest_wf()
        &&& if self.noSource {
            &&& set.merge_ok(size)
            &&& set.halftone_ok(size)
            &&& !set.noHalftone ==> 0 <= set.dy
            &&& set.forward_rows_ok(size)
            &&& set.count_fits(set.bitCount as int, set.bbH * set.row_words())
        } else if self.needs_pixmap() {
            &&& self.direction_fits()
            &&& set.pix_ok(size, set.bitCount as int)
        } else {
            &&& self.direction_fits()
            &&& self.destPPW == self.sourcePPW
            &&& set.copy_ok(size, set.bitCount as int)
        }
    }

    /// What the loop that is chosen makes of the memory and the registers.
    #[verifier::opaque]
    pub open spec fn looped(self, m: Seq<u8>) -> Blit {
        let set = self.loop_registers();
        let p = Picture { mem: m, count: set.bitCount as int };
        if self.noSource {
            let q = set.fill_rows(p, set.bbH as int);
            Blit { bb: set.filled(q), mem: q.mem }
        } else if self.needs_pixmap() {
            let q = set.pix_rows(p, set.bbH as int);
            Blit { bb: set.pix_mapped(q), mem: q.mem }
        } else {
            let q = set.copy_rows(p, set.bbH as int);
            Blit { bb: set.copied(q), mem: q.mem }
        }
    }

    /// The masks of a clipped blit come with sensible counts.
    pub(crate) proof fn lemma_steps_fit(self)
        requires
            self.dest_wf(),
        ensures
            self.with_dest_masks().steps_fit(),
            self.with_dest_masks().nWords >= 1,
            self.with_dest_masks().dest_wf(),
            self.with_direction().dest_wf(),
            self.steps_fit() ==> self.with_direction().steps_fit(),
            self.with_direction().nWords == self.nWords,
    {
        crate::bitblt::merge::lemma_ppw_bound(self);
        self.lemma_pixels_from(self.dx as int);
        let n = self.bbW - self.pixels_from(self.dx as int) + self.destPPW - 1;
        if n >= 0 {
            crate::bitblt::setup::lemma_quotient_range(n, self.destPPW as int);
        }
    }

    /// Chooses the inner loop for the blit and runs it.
    pub fn performCopyLoop(&mut self, mem: &mut Memory)
        requires
            old(self).loop_ok(old(mem)@.len()),
        ensures
            final(mem)@ == old(self).looped(old(mem)@).mem,
            *final(self) == old(self).looped(old(mem)@).bb,
            final(mem)@.len() == old(mem)@.len(),
    {
        proof {
            reveal(BitBlt::loop_ok);
            reveal(BitBlt::looped);
            self.lemma_steps_fit();
            self.with_dest_masks().lemma_steps_fit();
        }
        self.destMaskAndPointerInit();
        if self.noSource {
            self.copyLoopNoSource(mem);
        } else {
            self.checkSourceOverlap();
            if self.sourceDepth != self.destDepth || self.cmFlags != 0 || self.sourceMSB
                != self.destMSB {
                self.copyLoopPixMap(mem);
            } else {
                self.sourceSkewAndPointerInit();
                self.copyLoop(mem);
            }
        }
    }

    /// The registers with the affected rectangle worked out from the end of the
    /// blit that the loop started at.
    pub open spec fn with_affected_run(self) -> BitBlt {
        let (l, r) = if self.hDir > 0 {
            (self.dx as int, self.dx + self.bbW)
        } else {
            (self.dx - self.bbW + 1, self.dx + 1)
        };
        let (t, b) = if self.vDir > 0 {
            (self.dy as int, self.dy + self.bbH)
        } else {
            (self.dy - self.bbH + 1, self.dy + 1)
        };
        BitBlt {
            affectedL: l as sqInt,
            affectedR: r as sqInt,
            affectedT: t as sqInt,
            affectedB: b as sqInt,
            ..self
        }
    }

    /// The registers with the rectangle that a copy loop has changed. The blends
    /// with a constant alpha report none.
    pub open spec fn with_affected(self) -> BitBlt {
        if self.combinationRule == 30 || self.combinationRule == 31 {
            BitBlt { affectedL: 0, affectedR: 0, affectedT: 0, affectedB: 0, ..self }
        } else {
            self.with_affected_run()
        }
    }

    pub(crate) fn setAffectedToRun(&mut self)
        ensures
            *final(self) == old(self).with_affected_run(),
    {
        if self.hDir > 0 {
            self.affectedL = self.dx as sqInt;
            self.affectedR = self.dx as sqInt + self.bbW as sqInt;
        } else {
            self.affectedL = (self.dx as sqInt - self.bbW as sqInt) + 1;
            self.affectedR = self.dx as sqInt + 1;
        }
        if self.vDir > 0 {
            self.affectedT = self.dy as sqInt;
            self.affectedB = self.dy as sqInt + self.bbH as sqInt;
        } else {
            self.affectedT = (self.dy as sqInt - self.bbH as sqInt) + 1;
            self.affectedB = self.dy as sqInt + 1;
        }
    }

    /// All that a clipped blit does: by a short cut, or by a copy loop that
    /// starts counting at 0.
    pub open spec fn blitted(self, m: Seq<u8>) -> Blit {
        if self.is_quick() {
            Blit { bb: self.after_quick(), mem: self.quick_memory(m) }
        } else {
            let done = (BitBlt { bitCount: 0, ..self }).looped(m);
            Blit { bb: done.bb.with_affected(), mem: done.mem }
        }
    }

    /// A clipped blit can be carried out on a memory of this size.
    pub open spec fn blit_ok(self, size: nat) -> bool {
        if self.is_quick() {
            self.quick_ok(size)
        } else {
            (BitBlt { bitCount: 0, ..self }).loop_ok(size)
        }
    }

    /// Carries a clipped blit out and works out the rectangle it changed.
    pub fn copyBitsDispatch(&mut self, mem: &mut Memory)
        requires
            old(self).blit_ok(old(mem)@.len()),
        ensures
            final(mem)@ == old(self).blitted(old(mem)@).mem,
            *final(self) == old(self).blitted(old(mem)@).bb,
            final(mem)@.len() == old(mem)@.len(),
    {
        if self.tryCopyingBitsQuickly(mem) {
            return;
        }
        self.bitCount = 0;
        self.performCopyLoop(mem);
        if self.combinationRule >= 30 && self.combinationRule <= 31 {
            self.affectedL = 0;
            self.affectedR = 0;
            self.affectedT = 0;
            self.affectedB = 0;
        } else {
            self.setAffectedToRun();
        }
    }
}

/// A visit that does nothing leaves the memory as it was.
proof fn lemma_scan_idle(
    f: spec_fn(Seq<u8>, int, int) -> Seq<u8>,
    m: Seq<u8>,
    w: int,
    j: int,
    i: int,
)
    requires
        forall|x: Seq<u8>, a: int, b: int| #[trigger] f(x, a, b) == x,
    ensures
        scan(f, m, w, j, i) == m,
    decreases j, i,
{
    if i > 0 {
        lemma_scan_idle(f, m, w, j, i - 1);
    } else if j > 0 {
        lemma_scan_idle(f, m, w, j - 1, w);
    }
}

} // verus!
