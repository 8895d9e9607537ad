//! Whole operations on forms that have addresses: a blit, a warp.
use vstd::prelude::*;
use crate::prim::{sqInt, UsqInt};
use crate::bitblt::memory::Memory;
use crate::bitblt::state::{shl32, shl_word, BitBlt};
use crate::bitblt::dispatch::Blit;
use crate::bitblt::load::small;
use crate::bitblt::surface::{LockEvent, LockState};
use crate::bitblt::warp::{deltaFromtonSteps, warp_delta, WARP_LIMIT};
use crate::bitblt::warploop::{warp_of, Quad, Warp};

verus! {

broadcast use crate::bitblt::memory::group_memory;

/// The arguments of a blit. An argument that is not an integer is nothing, and
/// so is a table that is not bytes.
#[derive(Debug, Clone, Copy, PartialEq, Eq, Structural)]
pub struct BlitArgs {
    pub count: sqInt,
    pub first: Option<sqInt>,
    pub second: Option<sqInt>,
    pub gamma: Option<UsqInt>,
    pub ungamma: Option<UsqInt>,
}

pub open spec fn or_zero(v: Option<sqInt>) -> sqInt {
    match v {
        Some(x) => x,
        None => 0,
    }
}

pub open spec fn table_or_none(v: Option<UsqInt>) -> UsqInt {
    match v {
        Some(x) => x,
        None => 0,
    }
}

fn tableOrNone(v: Option<UsqInt>) -> (r: UsqInt)
    ensures
        r == table_or_none(v),
{
    match v {
        Some(x) => x,
        None => 0,
    }
}

impl BitBlt {
    // ---- Arguments --------------------------------------------------------

    /// The registers before the arguments of rule 41 are seen: white, opaque,
    /// without tables.
    pub open spec fn component_defaults(self) -> BitBlt {
        BitBlt {
            componentAlphaModeAlpha: 0xFF,
            componentAlphaModeColor: 0xFFFFFF,
            gammaLookupTable: 0,
            ungammaLookupTable: 0,
            ..self
        }
    }

    /// The registers after the arguments of rule 41 were taken, and whether they
    /// are as they should be. One argument is the color; with more, the second
    /// is the alpha, and the last two of four are the tables.
    pub open spec fn with_component_args(self, a: BlitArgs) -> (BitBlt, bool) {
        let bb = self.component_defaults();
        if self.combinationRule != 41 {
            (self, true)
        } else if a.count >= 2 {
            let alpha = BitBlt { componentAlphaModeAlpha: or_zero(a.second), ..bb };
            let color = BitBlt { componentAlphaModeColor: or_zero(a.first), ..alpha };
            if a.second is None {
                (alpha, false)
            } else if a.first is None {
                (color, false)
            } else if a.count == 4 {
                (
                    BitBlt {
                        gammaLookupTable: table_or_none(a.gamma),
                        ungammaLookupTable: table_or_none(a.ungamma),
                        ..color
                    },
                    true,
                )
            } else {
                (color, true)
            }
        } else if a.count == 1 {
            (BitBlt { componentAlphaModeColor: or_zero(a.first), ..bb }, a.first is Some)
        } else {
            (bb, false)
        }
    }

    /// Takes the arguments of rule 41. Answers whether they are as they should
    /// be.
    pub fn copyBitsRule41Test(&mut self, a: &BlitArgs) -> (r: bool)
        ensures
            (*final(self), r) == old(self).with_component_args(*a),
    {
        if self.combinationRule != 41 {
            return true;
        }
        self.componentAlphaModeAlpha = 0xFF;
        self.componentAlphaModeColor = 0xFFFFFF;
        self.gammaLookupTable = 0;
        self.ungammaLookupTable = 0;
        if a.count >= 2 {
            match a.second {
                Some(alpha) => {
                    self.componentAlphaModeAlpha = alpha;
                },
                None => {
                    self.componentAlphaModeAlpha = 0;
                    return false;
                },
            }
            match a.first {
                Some(color) => {
                    self.componentAlphaModeColor = color;
                },
                None => {
                    self.componentAlphaModeColor = 0;
                    return false;
                },
            }
            if a.count == 4 {
                self.gammaLookupTable = tableOrNone(a.gamma);
                self.ungammaLookupTable = tableOrNone(a.ungamma);
            }
            true
        } else if a.count == 1 {
            match a.first {
                Some(color) => {
                    self.componentAlphaModeColor = color;
                    true
                },
                None => {
                    self.componentAlphaModeColor = 0;
                    false
                },
            }
        } else {
            false
        }
    }

    /// The registers after the argument of rules 30 and 31 was taken, and
    /// whether it is one alpha value.
    pub open spec fn with_alpha_arg(self, a: BlitArgs) -> (BitBlt, bool) {
        if !(30 <= self.combinationRule <= 31) {
            (self, true)
        } else if a.count != 1 {
            (self, false)
        } else {
            (
                BitBlt { sourceAlpha: or_zero(a.first), ..self },
                a.first is Some && 0 <= or_zero(a.first) <= 0xFF,
            )
        }
    }

    /// Takes the argument of rules 30 and 31. Answers whether it is one alpha
    /// value.
    pub fn copyBitsAlphaTest(&mut self, a: &BlitArgs) -> (r: bool)
        ensures
            (*final(self), r) == old(self).with_alpha_arg(*a),
    {
        if !(30 <= self.combinationRule && self.combinationRule <= 31) {
            return true;
        }
        if a.count != 1 {
            return false;
        }
        match a.first {
            Some(alpha) => {
                self.sourceAlpha = alpha;
                0 <= alpha && alpha <= 0xFF
            },
            None => {
                self.sourceAlpha = 0;
                false
            },
        }
    }

    // ---- Blits ------------------------------------------------------------

    /// The registers after all arguments were taken, and whether they are as
    /// they should be.
    pub open spec fn with_args(self, a: BlitArgs) -> (BitBlt, bool) {
        let (first, ok) = self.with_component_args(a);
        if !ok {
            (first, false)
        } else {
            first.with_alpha_arg(a)
        }
    }

    /// A clipped blit of forms that have addresses, and whether its arguments
    /// are as they should be.
    pub open spec fn locked_blit(self, m: Seq<u8>, a: BlitArgs) -> (Blit, bool) {
        let (bb, ok) = self.with_args(a);
        if ok {
            (bb.blitted(m), true)
        } else {
            (Blit { bb, mem: m }, false)
        }
    }

    /// The clipped blit can be carried out once its arguments are taken.
    pub open spec fn locked_ok(self, size: nat, a: BlitArgs) -> bool {
        self.with_args(a).1 ==> self.with_args(a).0.blit_ok(size)
    }

    /// Carries a clipped blit out. Answers whether its arguments are as they
    /// should be.
    pub fn copyBitsLockedAndClipped(&mut self, mem: &mut Memory, a: &BlitArgs) -> (r: bool)
        requires
            old(self).locked_ok(old(mem)@.len(), *a),
        ensures
            r == old(self).locked_blit(old(mem)@, *a).1,
            *final(self) == old(self).locked_blit(old(mem)@, *a).0.bb,
            final(mem)@ == old(self).locked_blit(old(mem)@, *a).0.mem,
            final(mem)@.len() == old(mem)@.len(),
    {
        if !self.copyBitsRule41Test(a) {
            return false;
        }
        if !self.copyBitsAlphaTest(a) {
            return false;
        }
        self.copyBitsDispatch(mem);
        true
    }

    /// The registers with nothing affected.
    pub open spec fn with_nothing_affected(self) -> BitBlt {
        BitBlt { affectedL: 0, affectedR: 0, affectedT: 0, affectedB: 0, ..self }
    }

    fn setNothingAffected(&mut self)
        ensures
            *final(self) == old(self).with_nothing_affected(),
    {
        self.affectedL = 0;
        self.affectedR = 0;
        self.affectedT = 0;
        self.affectedB = 0;
    }

    /// Nothing of the blit is left after clipping.
    pub open spec fn is_empty_blit(self) -> bool {
        self.bbW <= 0 || self.bbH <= 0
    }

    /// Clips the blit. Answers whether anything is left; if not, nothing is
    /// affected.
    pub fn clipToBlit(&mut self) -> (r: bool)
        requires
            old(self).clip_fits(),
        ensures
            r == !old(self).clipped().is_empty_blit(),
            *final(self) == (if r {
                old(self).clipped()
            } else {
                old(self).clipped().with_nothing_affected()
            }),
    {
        self.clipRange();
        if self.bbW <= 0 || self.bbH <= 0 {
            self.setNothingAffected();
            false
        } else {
            true
        }
    }

    /// The registers of a blit of forms that have addresses, as it starts.
    pub open spec fn begun(self) -> BitBlt {
        (BitBlt { hasSurfaceLock: false, ..self }).with_ends()
    }

    /// A blit of forms that have addresses: clipped, then carried out. Answers
    /// whether its arguments are as they should be.
    pub open spec fn copied_bits(self, m: Seq<u8>, a: BlitArgs) -> (Blit, bool) {
        let c = self.clipped();
        if c.is_empty_blit() {
            (Blit { bb: c.with_nothing_affected(), mem: m }, true)
        } else {
            c.begun().locked_blit(m, a)
        }
    }

    /// The blit can be carried out on a memory of this size.
    pub open spec fn copy_bits_ok(self, size: nat, a: BlitArgs) -> bool {
        &&& self.clip_fits()
        &&& self.addressed()
        &&& !self.clipped().is_empty_blit() ==> {
            &&& self.clipped().shared_fits()
            &&& self.clipped().begun().locked_ok(size, a)
        }
    }

    /// Clips the blit and carries it out.
    pub fn copyBits(&mut self, mem: &mut Memory, a: &BlitArgs) -> (r: bool)
        requires
            old(self).copy_bits_ok(old(mem)@.len(), *a),
        ensures
            r == old(self).copied_bits(old(mem)@, *a).1,
            *final(self) == old(self).copied_bits(old(mem)@, *a).0.bb,
            final(mem)@ == old(self).copied_bits(old(mem)@, *a).0.mem,
            final(mem)@.len() == old(mem)@.len(),
    {
        if !self.clipToBlit() {
            return true;
        }
        proof {
            self.lemma_addressed_forms_need_no_lock();
        }
        let _step = self.lockSurfaces(LockState::Start, LockEvent::Begin);
        self.copyBitsLockedAndClipped(mem, a)
    }

    /// The registers with the blit moved to one span of a row.
    pub open spec fn with_span(self, start: sqInt, stop: sqInt, y: sqInt) -> BitBlt {
        BitBlt {
            destX: start,
            destY: y,
            sourceX: start,
            width: (stop - start) as sqInt,
            ..self
        }
    }

    /// Blits one span of a row.
    pub fn copyBitsFromtoat(
        &mut self,
        mem: &mut Memory,
        a: &BlitArgs,
        startX: sqInt,
        stopX: sqInt,
        yValue: sqInt,
    ) -> (r: bool)
        requires
            sqInt::MIN <= stopX - startX <= sqInt::MAX,
            old(self).with_span(startX, stopX, yValue).copy_bits_ok(old(mem)@.len(), *a),
        ensures
            ({
                let done = old(self).with_span(startX, stopX, yValue).copied_bits(old(mem)@, *a);
                &&& r == done.1
                &&& *final(self) == done.0.bb
                &&& final(mem)@ == done.0.mem
                &&& final(mem)@.len() == old(mem)@.len()
            }),
    {
        self.destX = startX;
        self.destY = yValue;
        self.sourceX = startX;
        self.width = stopX - startX;
        self.copyBits(mem, a)
    }

    /// What a blit answers: the count of differences for the two rules that
    /// count, nothing for the others.
    pub fn copyBitsAnswer(&self) -> (r: Option<sqInt>)
        ensures
            r == (if self.combinationRule == 22 || self.combinationRule == 32 {
                Some(self.bitCount)
            } else {
                None
            }),
    {
        if self.combinationRule == 22 || self.combinationRule == 32 {
            Some(self.bitCount)
        } else {
            None
        }
    }
}

// ---- Warps ----------------------------------------------------------------

/// The corners of the quadrilateral in the source, in fixed point, going round
/// from the one that becomes the top left.
#[derive(Debug, Clone, Copy, PartialEq, Eq, Structural)]
pub struct WarpCorners {
    pub p1x: sqInt,
    pub p1y: sqInt,
    pub p2x: sqInt,
    pub p2y: sqInt,
    pub p3x: sqInt,
    pub p3y: sqInt,
    pub p4x: sqInt,
    pub p4y: sqInt,
}

impl WarpCorners {
    /// The coordinates fit their slots.
    pub open spec fn inv(self) -> bool {
        &&& small(self.p1x as int)
        &&& small(self.p1y as int)
        &&& small(self.p2x as int)
        &&& small(self.p2y as int)
        &&& small(self.p3x as int)
        &&& small(self.p3y as int)
        &&& small(self.p4x as int)
        &&& small(self.p4y as int)
    }
}

/// The map of source colors that a warp is given: nothing, or any object with
/// slots. Its contents are taken for words.
#[derive(Debug, Clone, Copy, PartialEq, Eq, Structural)]
pub enum SourceMap {
    Nil,
    Slots {
        /// How many slots.
        size: sqInt,
        address: UsqInt,
    },
}

/// The arguments of a warp.
#[derive(Debug, Clone, Copy, PartialEq, Eq, Structural)]
pub struct WarpArgs {
    pub count: sqInt,
    /// Source pixels along the side of the square to average over.
    pub smoothing: Option<sqInt>,
    /// Colors of source pixels of under 16 bits.
    pub map: SourceMap,
}

/// Where an edge from `p` to `q` starts in `n` steps, and the step. An edge that
/// goes down is laid out from its far end.
pub open spec fn warp_edge(p: int, q: int, n: int) -> (int, int) {
    let d = warp_delta(p, q, n);
    (
        if d < 0 {
            q - n * d
        } else {
            p
        },
        d,
    )
}

fn warpEdge(p: sqInt, q: sqInt, n: sqInt) -> (r: (sqInt, sqInt))
    requires
        small(p as int),
        small(q as int),
        1 <= n <= WARP_LIMIT,
    ensures
        r.0 == warp_edge(p as int, q as int, n as int).0,
        r.1 == warp_edge(p as int, q as int, n as int).1,
{
    proof {
        crate::bitblt::warploop::lemma_row_room(p as int, q as int, n as int);
    }
    let d: sqInt = deltaFromtonSteps(p, q, n);
    if d < 0 {
        (q - n * d, d)
    } else {
        (p, d)
    }
}

impl BitBlt {
    /// Steps down the unclipped destination.
    pub open spec fn warp_rises(self) -> int {
        if self.height - 1 <= 0 {
            1
        } else {
            self.height - 1
        }
    }

    /// The warp between two edges: from the first corner to the second, and from
    /// the fourth to the third.
    pub open spec fn warp_between(self, c: WarpCorners, smoothing: int, map: int) -> Warp {
        let n = self.warp_rises();
        let ax = warp_edge(c.p1x as int, c.p2x as int, n);
        let ay = warp_edge(c.p1y as int, c.p2y as int, n);
        let bx = warp_edge(c.p4x as int, c.p3x as int, n);
        let by = warp_edge(c.p4y as int, c.p3y as int, n);
        Warp {
            corner: Quad { ax: ax.0, ay: ay.0, bx: bx.0, by: by.0 },
            step: Quad { ax: ax.1, ay: ay.1, bx: bx.1, by: by.1 },
            smoothing,
            map,
        }
    }

    /// Words that a map of source colors needs: one for each pixel value, but
    /// one in all at 32 bits.
    pub open spec fn source_map_words(self) -> u32 {
        shl_word(1, self.sourceDepth as int % 32)
    }

    /// The side of the square and the address of the map; nothing when the
    /// arguments are not as they should be. Averaging pixels of under 16 bits
    /// takes a map.
    pub open spec fn smoothing_args(self, a: WarpArgs) -> Option<(sqInt, UsqInt)> {
        if a.count != 2 {
            Some((1, 0))
        } else if or_zero(a.smoothing) < 1 {
            None
        } else {
            match a.map {
                SourceMap::Nil => if self.sourceDepth < 16 {
                    None
                } else {
                    Some((or_zero(a.smoothing), 0))
                },
                SourceMap::Slots { size, address } => if size < self.source_map_words() {
                    None
                } else {
                    Some((or_zero(a.smoothing), address))
                },
            }
        }
    }

    fn smoothingArgs(&self, a: &WarpArgs) -> (r: Option<(sqInt, UsqInt)>)
        requires
            0 <= self.sourceDepth <= 32,
        ensures
            r == self.smoothing_args(*a),
    {
        if a.count != 2 {
            return Some((1, 0));
        }
        let smoothing: sqInt = match a.smoothing {
            Some(n) => n,
            None => 0,
        };
        if smoothing < 1 {
            return None;
        }
        match a.map {
            SourceMap::Nil => if self.sourceDepth < 16 {
                None
            } else {
                Some((smoothing, 0))
            },
            SourceMap::Slots { size, address } => {
                if size < shl32(1, self.sourceDepth as sqInt % 32) as sqInt {
                    None
                } else {
                    Some((smoothing, address))
                }
            },
        }
    }

    /// The warp of a clipped destination, and whether its arguments are as they
    /// should be.
    pub open spec fn warp_run(self, m: Seq<u8>, c: Option<WarpCorners>, a: WarpArgs) -> (
        Blit,
        bool,
    ) {
        match (c, self.smoothing_args(a)) {
            (Some(corners), Some((n, map))) => {
                let set = self.warp_prepared(n as int);
                let q = set.warp_rows(
                    self.warp_between(corners, n as int, map as int),
                    set.warp_begin(m),
                    set.bbH as int,
                );
                (Blit { bb: set.warped(q), mem: q.mem }, true)
            },
            _ => (Blit { bb: self, mem: m }, false),
        }
    }

    /// The warp of a clipped destination can run on a memory of this size.
    pub open spec fn warp_run_ok(self, size: nat, c: Option<WarpCorners>, a: WarpArgs) -> bool {
        &&& 1 <= self.sourceDepth <= 32
        &&& -0x800_0000_0000_0000 <= self.cmBitsPerColor <= 0x800_0000_0000_0000
        &&& -WARP_LIMIT <= self.height <= WARP_LIMIT
        &&& match (c, self.smoothing_args(a)) {
            (Some(corners), Some((n, map))) => {
                let w = self.warp_between(corners, n as int, map as int);
                &&& corners.inv()
                &&& self.warp_fits(w)
                &&& self.warp_prepared(n as int).warp_ok(size, w)
            },
            _ => true,
        }
    }

    /// Warps into a clipped destination. Answers whether the arguments are as
    /// they should be; without corners they are not.
    pub fn warpLoop(&mut self, mem: &mut Memory, c: &Option<WarpCorners>, a: &WarpArgs) -> (r: bool)
        requires
            old(self).warp_run_ok(old(mem)@.len(), *c, *a),
        ensures
            r == old(self).warp_run(old(mem)@, *c, *a).1,
            *final(self) == old(self).warp_run(old(mem)@, *c, *a).0.bb,
            final(mem)@ == old(self).warp_run(old(mem)@, *c, *a).0.mem,
            final(mem)@.len() == old(mem)@.len(),
    {
        let corners: WarpCorners = match c {
            Some(corners) => *corners,
            None => {
                return false;
            },
        };
        let (n, map): (sqInt, UsqInt) = match self.smoothingArgs(a) {
            Some((n, map)) => (n, map),
            None => {
                return false;
            },
        };
        let rises: sqInt = if self.height - 1 <= 0 {
            1
        } else {
            self.height - 1
        };
        let (pAx, deltaP12x) = warpEdge(corners.p1x, corners.p2x, rises);
        let (pAy, deltaP12y) = warpEdge(corners.p1y, corners.p2y, rises);
        let (pBx, deltaP43x) = warpEdge(corners.p4x, corners.p3x, rises);
        let (pBy, deltaP43y) = warpEdge(corners.p4y, corners.p3y, rises);
        proof {
            assert(self.warp_between(corners, n as int, map as int) == warp_of(
                pAx,
                pAy,
                pBx,
                pBy,
                deltaP12x,
                deltaP12y,
                deltaP43x,
                deltaP43y,
                n,
                map,
            ));
        }
        self.warpLoopBody(
            mem,
            pAx,
            pAy,
            pBx,
            pBy,
            deltaP12x,
            deltaP12y,
            deltaP43x,
            deltaP43y,
            n,
            map,
        );
        true
    }

    /// The registers after a warp was clipped: only the destination counts.
    pub open spec fn warp_clipped(self) -> BitBlt {
        BitBlt { noSource: self.noSource, ..(BitBlt { noSource: true, ..self }).clipped() }
    }

    /// A warp between forms that have addresses. Answers whether the arguments
    /// are as they should be.
    pub open spec fn warped_bits(self, m: Seq<u8>, c: Option<WarpCorners>, a: WarpArgs) -> (
        Blit,
        bool,
    ) {
        let clip = self.warp_clipped();
        if self.noSource || clip.is_empty_blit() {
            (Blit { bb: clip.with_nothing_affected(), mem: m }, true)
        } else {
            let (done, ok) = clip.begun().with_dest_masks().warp_run(m, c, a);
            (Blit { bb: done.bb.with_affected_run(), mem: done.mem }, ok)
        }
    }

    /// The warp can be carried out on a memory of this size.
    pub open spec fn warp_bits_ok(self, size: nat, c: Option<WarpCorners>, a: WarpArgs) -> bool {
        &&& (BitBlt { noSource: true, ..self }).clip_fits()
        &&& !self.noSource && !self.warp_clipped().is_empty_blit() ==> {
            &&& self.addressed()
            &&& self.warp_clipped().shared_fits()
            &&& self.dest_wf()
            &&& self.warp_clipped().begun().with_dest_masks().warp_run_ok(size, c, a)
        }
    }

    /// Clips a warp and carries it out.
    pub fn warpBits(&mut self, mem: &mut Memory, c: &Option<WarpCorners>, a: &WarpArgs) -> (r: bool)
        requires
            old(self).warp_bits_ok(old(mem)@.len(), *c, *a),
        ensures
            r == old(self).warped_bits(old(mem)@, *c, *a).1,
            *final(self) == old(self).warped_bits(old(mem)@, *c, *a).0.bb,
            final(mem)@ == old(self).warped_bits(old(mem)@, *c, *a).0.mem,
            final(mem)@.len() == old(mem)@.len(),
    {
        let noSource: bool = self.noSource;
        self.noSource = true;
        self.clipRange();
        self.noSource = noSource;
        if self.noSource || self.bbW <= 0 || self.bbH <= 0 {
            self.setNothingAffected();
            return true;
        }
        proof {
            self.lemma_addressed_forms_need_no_lock();
        }
        let _step = self.lockSurfaces(LockState::Start, LockEvent::Begin);
        self.destMaskAndPointerInit();
        let r: bool = self.warpLoop(mem, c, a);
        self.setAffectedToRun();
        r
    }
}

} // verus!
