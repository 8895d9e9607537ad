//! Clipping is intersection, and a blit that was loaded and clipped lies within
//! its forms.
use vstd::prelude::*;
use crate::prim::UsqInt;
use crate::bitblt::blit::BlitArgs;
use crate::bitblt::state::BitBlt;
use crate::bitblt::setup::Extent;
use crate::bitblt::load::{
    bitmap_pitch, is_rule, BlitObject, FormBits, FormGeometry, FormObject, LoadError,
};

verus! {

impl Extent {
    /// Cutting down to the clip loses nothing to the 32 bits that the results are
    /// kept in.
    pub open spec fn clip_exact(
        source: int,
        dest: int,
        size: int,
        clip: int,
        clip_size: int,
    ) -> bool {
        let cut = if dest >= clip {
            0
        } else {
            clip - dest
        };
        let over = dest + size - (clip + clip_size);
        &&& i32::MIN <= source + cut <= i32::MAX
        &&& i32::MIN <= dest + cut <= i32::MAX
        &&& i32::MIN <= size - cut <= i32::MAX
        &&& over <= i32::MAX
    }

    /// A pixel is left exactly if it is in the blit and in the clip, and, with a
    /// source of `limit` pixels, if it has a source pixel. The source moves along
    /// with the destination.
    pub(crate) proof fn lemma_intersection(
        source: int,
        dest: int,
        size: int,
        clip: int,
        clip_size: int,
        limit: Option<int>,
        x: int,
    )
        requires
            Self::clip_exact(source, dest, size, clip, clip_size),
        ensures
            ({
                let e = Self::in_clip(source, dest, size, clip, clip_size);
                let f = match limit {
                    None => e,
                    Some(n) => e.in_source(n),
                };
                &&& (f.dest <= x < f.dest + f.size) == (dest <= x < dest + size && clip <= x < clip
                    + clip_size && (limit matches Some(n) ==> 0 <= x - dest + source < n))
                &&& f.dest - f.source == dest - source
                &&& dest <= f.dest
            }),
    {
    }
}

impl BitBlt {
    /// Clipping loses nothing to the 32 bits that the results are kept in.
    pub open spec fn clip_exact(self) -> bool {
        &&& self.clip_fits()
        &&& Extent::clip_exact(
            self.sourceX as int,
            self.destX as int,
            self.width as int,
            self.clipX as int,
            self.clipWidth as int,
        )
        &&& Extent::clip_exact(
            self.sourceY as int,
            self.destY as int,
            self.height as int,
            self.clipY as int,
            self.clipHeight as int,
        )
    }

    /// Whether a pixel of the destination is in the blit as it was asked for, in
    /// the clipping rectangle, and has a source pixel.
    pub open spec fn asks_for(self, x: int, y: int) -> bool {
        &&& self.destX <= x < self.destX + self.width
        &&& self.destY <= y < self.destY + self.height
        &&& self.clipX <= x < self.clipX + self.clipWidth
        &&& self.clipY <= y < self.clipY + self.clipHeight
        &&& !self.noSource ==> {
            &&& 0 <= x - self.destX + self.sourceX < self.sourceWidth
            &&& 0 <= y - self.destY + self.sourceY < self.sourceHeight
        }
    }

    /// Whether a pixel is in the clipped blit.
    pub open spec fn has_pixel(self, x: int, y: int) -> bool {
        self.dx <= x < self.dx + self.bbW && self.dy <= y < self.dy + self.bbH
    }

    /// Clipping leaves exactly the pixels that are in the blit, in the clipping
    /// rectangle and in the source, and each keeps its source pixel.
    pub proof fn lemma_clip(self, x: int, y: int)
        requires
            self.clip_exact(),
        ensures
            self.clipped().has_pixel(x, y) == self.asks_for(x, y),
            self.clipped().dx - self.clipped().sx == self.destX - self.sourceX,
            self.clipped().dy - self.clipped().sy == self.destY - self.sourceY,
    {
        Extent::lemma_intersection(
            self.sourceX as int,
            self.destX as int,
            self.width as int,
            self.clipX as int,
            self.clipWidth as int,
            if self.noSource {
                None
            } else {
                Some(self.sourceWidth as int)
            },
            x,
        );
        Extent::lemma_intersection(
            self.sourceY as int,
            self.destY as int,
            self.height as int,
            self.clipY as int,
            self.clipHeight as int,
            if self.noSource {
                None
            } else {
                Some(self.sourceHeight as int)
            },
            y,
        );
    }

    // ---- Loading ----------------------------------------------------------

    /// The clipping rectangle lies within the destination.
    pub open spec fn clip_in_form(self) -> bool {
        &&& 0 <= self.clipX
        &&& 0 <= self.clipY
        &&& self.clipX + self.clipWidth <= self.destWidth
        &&& self.clipY + self.clipHeight <= self.destHeight
    }

    /// A blit that could be loaded has a rule, forms of usable depths and a
    /// clipping rectangle within its destination.
    pub proof fn lemma_loaded(self, m: Seq<u8>, o: BlitObject, warping: bool)
        requires
            o.inv(m.len()),
            self.loaded(m, o, warping).1 is Ok,
        ensures
            ({
                let bb = self.loaded(m, o, warping).0;
                &&& is_rule(bb.combinationRule as int)
                &&& bb.dest_wf()
                &&& bb.clip_in_form()
                &&& (bb.dest_geometry(), Ok::<(), LoadError>(())) == self.dest_geometry().of_form(
                    o.dest,
                )
                &&& !bb.noSource ==> 1 <= bb.sourceDepth <= 32 && bb.sourcePPW == 32int
                    / bb.sourceDepth as int && (
                    bb.source_geometry(),
                    Ok::<(), LoadError>(()),
                ) == self.source_geometry().of_form(o.source)
                &&& !bb.noHalftone ==> bb.halftoneHeight > 0
            }),
    {
        reveal(BitBlt::with_source);
        reveal(BitBlt::with_rest);
        let ruled = self.with_object(o, warping, o.rule->0);
        let noted = ruled.with_forms(o);
        let (g, found) = noted.dest_geometry().of_form(o.dest);
        let formed = noted.with_dest_geometry(g);
        let placed = formed.with_placement(o);
        let (sourced, ok, malformed) = placed.with_source(m, o);
        assert(noted.dest_geometry() == self.dest_geometry());
        assert(placed.source_geometry() == self.source_geometry());
        lemma_geometry(self.dest_geometry(), o.dest);
        assert(sourced.dest_geometry() == g);
        assert(sourced.destWidth == placed.destWidth && sourced.destHeight == placed.destHeight);
        if !placed.noSource {
            lemma_geometry(self.source_geometry(), o.source);
            let (s, f) = placed.source_geometry().of_form(o.source);
            assert(sourced.source_geometry() == s);
        }
        let bb = self.loaded(m, o, warping).0;
        assert(bb.dest_geometry() == g);
        assert(bb.source_geometry() == sourced.source_geometry());
    }

    /// A blit that was loaded over a bitmap in memory, and clipped to something,
    /// lies within its destination form.
    pub proof fn lemma_loaded_in_form(self, m: Seq<u8>, o: BlitObject, warping: bool)
        requires
            o.inv(m.len()),
            self.loaded(m, o, warping).1 is Ok,
            self.loaded(m, o, warping).0.clip_exact(),
            self.loaded(m, o, warping).0.whole_pixels(),
            m.len() <= UsqInt::MAX,
            o.dest.bits matches FormBits::Bitmap { size, address } && address + size <= m.len(),
            bitmap_pitch(o.dest.width as i32 as int, self.loaded(m, o, warping).0.destPPW as int)
                <= i32::MAX,
            self.loaded(m, o, warping).0.clipped().bbW >= 1,
            self.loaded(m, o, warping).0.clipped().bbH >= 1,
        ensures
            self.loaded(m, o, warping).0.clipped().dest_form(m.len()),
    {
        let bb = self.loaded(m, o, warping).0;
        let c = bb.clipped();
        self.lemma_loaded(m, o, warping);
        bb.lemma_clip(c.dx as int, c.dy as int);
        bb.lemma_clip(c.dx + c.bbW - 1, c.dy + c.bbH - 1);
        let width = bb.destWidth as int;
        let ppw = bb.destPPW as int;
        let depth = bb.destDepth as int;
        let pitch = bb.destPitch as int;
        bb.lemma_pixel_place(0);
        assert(pitch == bitmap_pitch(width, ppw));
        let words = (width + (ppw - 1)) / ppw;
        assert(words * ppw >= width && words >= 1) by (nonlinear_arith)
            requires
                words == (width + (ppw - 1)) / ppw,
                1 <= ppw,
                1 <= width,
        ;
        assert((c.dx + c.bbW) * depth <= 8 * pitch) by (nonlinear_arith)
            requires
                c.dx + c.bbW <= width,
                words * ppw >= width,
                ppw * depth == 32,
                pitch == words * 4,
                1 <= depth,
        ;
        assert((c.dy + c.bbH) * pitch <= bb.destHeight * pitch) by (nonlinear_arith)
            requires
                c.dy + c.bbH <= bb.destHeight,
                0 <= pitch,
        ;
        assert(bb.destHeight * pitch == pitch * bb.destHeight) by (nonlinear_arith);
    }

    /// Such a blit lies within its source form too, where the source has the
    /// destination's depth. What memory there is to spare after the bitmap is
    /// there after the blit.
    pub proof fn lemma_loaded_in_source(
        self,
        m: Seq<u8>,
        o: BlitObject,
        warping: bool,
        spare: nat,
    )
        requires
            o.inv(m.len()),
            self.loaded(m, o, warping).1 is Ok,
            self.loaded(m, o, warping).0.clip_exact(),
            self.loaded(m, o, warping).0.whole_pixels(),
            !self.loaded(m, o, warping).0.noSource,
            self.loaded(m, o, warping).0.sourceDepth == self.loaded(m, o, warping).0.destDepth,
            m.len() <= UsqInt::MAX,
            o.source.bits matches FormBits::Bitmap { size, address } && address + size + spare
                <= m.len(),
            bitmap_pitch(o.source.width as i32 as int, self.loaded(m, o, warping).0.sourcePPW as int)
                <= i32::MAX,
            self.loaded(m, o, warping).0.clipped().bbW >= 1,
            self.loaded(m, o, warping).0.clipped().bbH >= 1,
        ensures
            self.loaded(m, o, warping).0.clipped().source_form(m.len()),
            ({
                let c = self.loaded(m, o, warping).0.clipped();
                c.source_row(c.sy + c.bbH) + spare <= m.len()
            }),
    {
        let bb = self.loaded(m, o, warping).0;
        let c = bb.clipped();
        self.lemma_loaded(m, o, warping);
        bb.lemma_clip(c.dx as int, c.dy as int);
        bb.lemma_clip(c.dx + c.bbW - 1, c.dy + c.bbH - 1);
        let width = bb.sourceWidth as int;
        let ppw = bb.sourcePPW as int;
        let depth = bb.destDepth as int;
        let pitch = bb.sourcePitch as int;
        bb.lemma_pixel_place(0);
        assert(pitch == bitmap_pitch(width, ppw));
        let words = (width + (ppw - 1)) / ppw;
        assert(words * ppw >= width && words >= 1) by (nonlinear_arith)
            requires
                words == (width + (ppw - 1)) / ppw,
                1 <= ppw,
                1 <= width,
        ;
        assert((c.sx + c.bbW) * depth <= 8 * pitch) by (nonlinear_arith)
            requires
                c.sx + c.bbW <= width,
                words * ppw >= width,
                ppw * depth == 32,
                pitch == words * 4,
                1 <= depth,
        ;
        assert((c.sy + c.bbH) * pitch <= bb.sourceHeight * pitch) by (nonlinear_arith)
            requires
                c.sy + c.bbH <= bb.sourceHeight,
                0 <= pitch,
        ;
        assert(bb.sourceHeight * pitch == pitch * bb.sourceHeight) by (nonlinear_arith);
    }
}

impl BitBlt {
    /// What loading sets beside the geometry.
    proof fn lemma_loaded_flags(self, m: Seq<u8>, o: BlitObject, warping: bool)
        requires
            o.inv(m.len()),
            self.loaded(m, o, warping).1 is Ok,
        ensures
            self.loaded(m, o, warping).0.isWarping == warping,
    {
        reveal(BitBlt::with_source);
        reveal(BitBlt::with_rest);
    }

    /// A fill that was loaded over a bitmap in memory can be carried out.
    pub proof fn lemma_loaded_fill_runs(self, m: Seq<u8>, o: BlitObject, a: BlitArgs)
        requires
            o.inv(m.len()),
            self.loaded(m, o, false).1 is Ok,
            self.loaded(m, o, false).0.clip_exact(),
            self.loaded(m, o, false).0.whole_pixels(),
            m.len() <= UsqInt::MAX,
            o.dest.bits matches FormBits::Bitmap { size, address } && address + size <= m.len()
                && address != 0,
            bitmap_pitch(o.dest.width as i32 as int, self.loaded(m, o, false).0.destPPW as int)
                <= i32::MAX,
            self.loaded(m, o, false).0.noSource,
            0 <= self.loaded(m, o, false).0.combinationRule <= 15,
            self.loaded(m, o, false).0.halftone_ok(m.len()),
        ensures
            self.loaded(m, o, false).0.copy_bits_ok(m.len(), a),
    {
        let bb = self.loaded(m, o, false).0;
        let c = bb.clipped();
        self.lemma_loaded(m, o, false);
        self.lemma_loaded_flags(m, o, false);
        if !c.is_empty_blit() {
            self.lemma_loaded_in_form(m, o, false);
            let run = BitBlt { bitCount: 0, ..c.begun() };
            assert(run.dest_row(run.dy + run.bbH) == c.dest_row(c.dy + c.bbH));
            assert(run.dest_form(m.len()));
            assert(run.counts_fit()) by {
                assert(run.bbH * (run.last_word() - run.first_word() + 1) * 0 == 0);
            }
            run.lemma_fill_runs(m.len());
        }
    }

    /// A copy between bitmaps of one depth that was loaded, and does not have to
    /// run from right to left, can be carried out, where a word of memory follows
    /// the source.
    pub proof fn lemma_loaded_copy_runs(self, m: Seq<u8>, o: BlitObject, a: BlitArgs)
        requires
            o.inv(m.len()),
            self.loaded(m, o, false).1 is Ok,
            self.loaded(m, o, false).0.clip_exact(),
            self.loaded(m, o, false).0.whole_pixels(),
            m.len() <= UsqInt::MAX,
            o.dest.bits matches FormBits::Bitmap { size, address } && address + size <= m.len()
                && address != 0,
            o.source.bits matches FormBits::Bitmap { size, address } && address + size + 4
                <= m.len() && address != 0,
            bitmap_pitch(o.dest.width as i32 as int, self.loaded(m, o, false).0.destPPW as int)
                <= i32::MAX,
            bitmap_pitch(o.source.width as i32 as int, self.loaded(m, o, false).0.sourcePPW as int)
                <= i32::MAX,
            self.loaded(m, o, false).0.clipped().copies_plainly(),
            0 <= self.loaded(m, o, false).0.combinationRule <= 15,
            self.loaded(m, o, false).0.halftone_ok(m.len()),
        ensures
            self.loaded(m, o, false).0.copy_bits_ok(m.len(), a),
    {
        let bb = self.loaded(m, o, false).0;
        let c = bb.clipped();
        self.lemma_loaded(m, o, false);
        self.lemma_loaded_flags(m, o, false);
        if !c.is_empty_blit() {
            self.lemma_loaded_in_form(m, o, false);
            self.lemma_loaded_in_source(m, o, false, 4);
            let run = BitBlt { bitCount: 0, ..c.begun() };
            assert(run.dest_row(run.dy + run.bbH) == c.dest_row(c.dy + c.bbH));
            assert(run.source_row(run.sy + run.bbH) == c.source_row(c.sy + c.bbH));
            assert(run.dest_form(m.len()));
            assert(run.source_form(m.len()));
            assert(run.counts_fit()) by {
                assert(run.bbH * (run.last_word() - run.first_word() + 1) * 0 == 0);
            }
            run.lemma_copy_runs(m.len());
        }
    }

    /// A blit that clipping leaves nothing of changes nothing and affects
    /// nothing.
    pub proof fn lemma_nothing_left(self, m: Seq<u8>, a: BlitArgs)
        requires
            self.clipped().is_empty_blit(),
        ensures
            self.copied_bits(m, a).1,
            self.copied_bits(m, a).0.mem == m,
            self.copied_bits(m, a).0.bb.affectedL == 0,
            self.copied_bits(m, a).0.bb.affectedR == 0,
            self.copied_bits(m, a).0.bb.affectedT == 0,
            self.copied_bits(m, a).0.bb.affectedB == 0,
    {
    }

    /// A blit whose arguments are not as they should be fails and changes nothing.
    pub proof fn lemma_refused(self, m: Seq<u8>, a: BlitArgs)
        requires
            !self.clipped().is_empty_blit(),
            !self.clipped().begun().with_args(a).1,
        ensures
            !self.copied_bits(m, a).1,
            self.copied_bits(m, a).0.mem == m,
    {
    }

    /// A blit by one of the sixteen rules on bits looks at no argument: it
    /// clips, and runs a copy loop over what is left.
    pub proof fn lemma_plain_blit(self, m: Seq<u8>, a: BlitArgs)
        requires
            0 <= self.combinationRule <= 15,
            !self.clipped().is_empty_blit(),
        ensures
            self.copied_bits(m, a).1,
            self.copied_bits(m, a).0.mem == (BitBlt {
                bitCount: 0,
                ..self.clipped().begun()
            }).looped(m).mem,
    {
        assert(self.clipped().begun().combinationRule == self.combinationRule);
    }
}

/// A form that was accepted has a usable depth.
proof fn lemma_geometry(before: FormGeometry, form: FormObject)
    ensures
        before.of_form(form).1 is Ok ==> {
            let g = before.of_form(form).0;
            &&& 1 <= g.depth <= 32
            &&& g.ppw == 32int / g.depth as int
        },
{
    if before.of_form(form).1 is Ok {
        let d = before.of_form(form).0.depth as int;
        assert(1 <= 32int / d <= 32) by (nonlinear_arith)
            requires
                1 <= d <= 32,
        ;
    }
}

} // verus!
