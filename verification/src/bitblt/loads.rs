//! What the object that describes a blit comes to in the registers.
use vstd::prelude::*;
use crate::bitblt::load::{
    slot_or, within, BlitObject, FormGeometry, FormObject, HalftoneObject,
};
use crate::bitblt::state::BitBlt;

verus! {

/// A bitmap that was accepted for a form is long enough for it. Its rows are whole
/// words, as few as the pixels of a row need, for the depths that divide a word.
/// The pixels start in the high bits for a positive depth, and in the low bits for
/// a negative one.
pub proof fn lemma_bitmap_rows(before: FormGeometry, form: FormObject)
    requires
        before.of_form(form).1 is Ok,
        form.bits is Bitmap,
        -32 <= form.depth <= 32,
        0 <= form.width <= 0x400_0000,
        0 <= form.height <= 0x400_0000,
    ensures
        ({
            let g = before.of_form(form).0;
            let d = g.depth as int;
            &&& form.isForm
            &&& g.width == form.width && g.height == form.height
            &&& d == form.depth || d == -form.depth
            &&& 1 <= d <= 32
            &&& (g.msb != 0) == (form.depth > 0)
            &&& g.bits == form.bits->Bitmap_address
            &&& g.pitch % 4 == 0
            &&& g.pitch * g.height <= form.bits->Bitmap_size
            &&& g.ppw * d <= 32 < (g.ppw + 1) * d
            &&& d == 1 || d == 2 || d == 4 || d == 8 || d == 16 || d == 32 ==> g.width * d <= 8
                * g.pitch < g.width * d + 32
        }),
{
    let g = before.of_form(form).0;
    let d = g.depth as int;
    let n = 32int / d;
    let w = g.width as int;
    let words = (w + (n - 1)) / n;
    assert(n * d <= 32 < (n + 1) * d && 1 <= n <= 32) by (nonlinear_arith)
        requires
            n == 32int / d,
            1 <= d <= 32,
    ;
    assert(0 <= words <= w + 31 && w <= words * n < w + n) by (nonlinear_arith)
        requires
            words == (w + (n - 1)) / n,
            1 <= n <= 32,
            0 <= w,
    ;
    if d == 1 || d == 2 || d == 4 || d == 8 || d == 16 || d == 32 {
        assert(n * d == 32) by (nonlinear_arith)
            requires
                n == 32int / d,
                d == 1 || d == 2 || d == 4 || d == 8 || d == 16 || d == 32,
        ;
        assert(w * d <= words * 32 < w * d + 32) by (nonlinear_arith)
            requires
                w <= words * n < w + n,
                n * d == 32,
                1 <= d,
        ;
    }
}

impl BitBlt {
    /// A blit that could be loaded is the one that its object asks for: it has the
    /// object's rule, place, extent and source origin. Its clipping rectangle is
    /// the part of the object's that is within the destination form. There is a
    /// source where the object has one and the rule takes one.
    pub proof fn lemma_loaded_asks(self, m: Seq<u8>, o: BlitObject, warping: bool, x: int, y: int)
        requires
            o.inv(m.len()),
            self.loaded(m, o, warping).1 is Ok,
        ensures
            ({
                let bb = self.loaded(m, o, warping).0;
                let rule = bb.combinationRule;
                let constant = rule == 0 || rule == 5 || rule == 10 || rule == 15;
                &&& Some(rule) == o.rule
                &&& bb.isWarping == warping
                &&& bb.destForm == o.dest.oop && bb.sourceForm == o.source.oop
                &&& bb.destX == o.destX && bb.destY == o.destY
                &&& bb.width == slot_or(o.width, bb.destWidth as int)
                &&& bb.height == slot_or(o.height, bb.destHeight as int)
                &&& bb.noSource == (o.source.isNil || constant)
                &&& !bb.noSource ==> bb.sourceX == o.sourceX && bb.sourceY == o.sourceY
                &&& (bb.clipX <= x < bb.clipX + bb.clipWidth) == (o.clipX <= x < o.clipX + slot_or(
                    o.clipWidth,
                    bb.destWidth as int,
                ) && 0 <= x < bb.destWidth)
                &&& (bb.clipY <= y < bb.clipY + bb.clipHeight) == (o.clipY <= y < o.clipY + slot_or(
                    o.clipHeight,
                    bb.destHeight as int,
                ) && 0 <= y < bb.destHeight)
                &&& bb.noHalftone == (o.halftoneIsNil || constant || (o.halftone matches
                    HalftoneObject::Form { bitsAreWords, .. } && !bitsAreWords))
                &&& !bb.noHalftone ==> match o.halftone {
                    HalftoneObject::Form { height, bitsAreWords, address } => bb.halftoneHeight
                        == height && bb.halftoneBase == address,
                    HalftoneObject::Words { size, address } => bb.halftoneHeight == size
                        && bb.halftoneBase == address,
                    HalftoneObject::Other => false,
                }
            }),
    {
        reveal(BitBlt::with_source);
        reveal(BitBlt::with_rest);
        let ruled = self.with_object(o, warping, o.rule->0);
        let noted = ruled.with_forms(o);
        let (g, _found) = noted.dest_geometry().of_form(o.dest);
        let placed = noted.with_dest_geometry(g).with_placement(o);
        let sourced = placed.with_source(m, o).0;
        let bb = self.loaded(m, o, warping).0;
        assert(sourced.destWidth == placed.destWidth && sourced.destHeight == placed.destHeight);
        assert(bb.destWidth == placed.destWidth && bb.destHeight == placed.destHeight);
        lemma_within(o.clipX as int, slot_or(o.clipWidth, bb.destWidth as int), bb.destWidth as int, x);
        lemma_within(
            o.clipY as int,
            slot_or(o.clipHeight, bb.destHeight as int),
            bb.destHeight as int,
            y,
        );
        let cx = within(
            o.clipX as int,
            slot_or(o.clipWidth, bb.destWidth as int),
            bb.destWidth as int,
        );
        let cy = within(
            o.clipY as int,
            slot_or(o.clipHeight, bb.destHeight as int),
            bb.destHeight as int,
        );
        assert(bb.clipX == cx.0 && bb.clipWidth == cx.1);
        assert(bb.clipY == cy.0 && bb.clipHeight == cy.1);
    }
}

/// Cutting an interval down leaves what lies in both.
proof fn lemma_within(at: int, size: int, limit: int, x: int)
    ensures
        ({
            let (a, n) = within(at, size, limit);
            (a <= x < a + n) == (at <= x < at + size && 0 <= x < limit)
        }),
{
}

} // verus!
