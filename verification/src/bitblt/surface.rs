//! Locking the surfaces that a blit reads or writes.
//!
//! A form whose bits are the handle of an operating-system surface has no
//! address until the surface is locked. Locking is a dialogue: each step says
//! what to ask for next, and the answer drives the next step.
use vstd::prelude::*;
use crate::prim::{sqInt, PrimErr, UsqInt};
use crate::bitblt::memory::{stepped, wrap_addr};
use crate::bitblt::state::BitBlt;
use crate::bitblt::setup::lemma_area;

verus! {

/// A rectangle of a surface.
#[derive(Debug, Clone, Copy, PartialEq, Eq, Structural)]
pub struct SurfaceRect {
    pub left: i32,
    pub top: i32,
    pub width: i32,
    pub height: i32,
}

/// What to do next. Every action but the last two is answered by an event.
#[derive(Debug, Clone, Copy, PartialEq, Eq, Structural)]
pub enum LockAction {
    /// Find the surface entry points; answered by `Resolved`.
    Resolve,
    /// Fetch the handle of the destination form; answered by `Handle`.
    FetchDest,
    /// Fetch the handle of the source form; answered by `Handle`.
    FetchSource,
    /// Lock a rectangle; answered by `Locked`.
    Lock { handle: sqInt, rect: SurfaceRect },
    /// Take the locks back and fail.
    GiveUp(PrimErr),
    /// The forms have addresses, or they cannot have them.
    Done(bool),
}

/// What came of an action.
#[derive(Debug, Clone, Copy, PartialEq, Eq, Structural)]
pub enum LockEvent {
    /// Nothing yet.
    Begin,
    /// The entry points, each 0 when it was not found.
    Resolved { query: UsqInt, lock: UsqInt, unlock: UsqInt },
    /// A handle, and whether the primitive has failed by now.
    Handle { value: sqInt, failed: bool },
    /// The address and the pitch of the locked bits, and whether objects moved.
    Locked { bits: UsqInt, pitch: i32, moved: bool },
}

/// How far the dialogue has come.
#[derive(Debug, Clone, Copy, PartialEq, Eq, Structural)]
pub enum LockState {
    Start,
    /// Entry points asked for, for the destination.
    DestResolve,
    /// Handle of the destination asked for.
    DestHandle,
    /// Handle of the source asked for, to compare it.
    SharedHandle { dest: sqInt },
    /// The surface that is both source and destination is being locked.
    SharedLock,
    /// The destination is being locked.
    DestLock,
    /// Handle of the source asked for.
    SourceHandle,
    /// Entry points asked for, for the source.
    SourceResolve { source: sqInt },
    /// The source is being locked.
    SourceLock,
    Ended,
}

/// One step of the dialogue.
#[derive(Debug, Clone, Copy, PartialEq, Eq, Structural)]
pub struct LockStep {
    /// A failure to raise before going on.
    pub raise: Option<PrimErr>,
    pub action: LockAction,
    pub state: LockState,
}

impl LockState {
    /// The event is one that this state waits for.
    pub open spec fn expects(self, e: LockEvent) -> bool {
        match self {
            LockState::Start => e is Begin,
            LockState::DestResolve => e is Resolved,
            LockState::DestHandle => e is Handle,
            LockState::SharedHandle { dest } => e is Handle,
            LockState::SharedLock => e is Locked,
            LockState::DestLock => e is Locked,
            LockState::SourceHandle => e is Handle,
            LockState::SourceResolve { source } => e is Resolved,
            LockState::SourceLock => e is Locked,
            LockState::Ended => false,
        }
    }
}

pub open spec fn smaller_of(a: i32, b: i32) -> int {
    if a <= b {
        a as int
    } else {
        b as int
    }
}

pub open spec fn larger_of(a: i32, b: i32) -> int {
    if a >= b {
        a as int
    } else {
        b as int
    }
}

fn smallerOf(a: i32, b: i32) -> (r: i32)
    ensures
        r == smaller_of(a, b),
{
    if a <= b {
        a
    } else {
        b
    }
}

fn largerOf(a: i32, b: i32) -> (r: i32)
    ensures
        r == larger_of(a, b),
{
    if a >= b {
        a
    } else {
        b
    }
}

/// A step that raises nothing.
pub open spec fn plain_step(action: LockAction, state: LockState) -> LockStep {
    LockStep { raise: None, action, state }
}

fn plainStep(action: LockAction, state: LockState) -> (r: LockStep)
    ensures
        r == plain_step(action, state),
{
    LockStep { raise: None, action, state }
}

impl BitBlt {
    /// The source is a surface that has no address yet.
    pub open spec fn source_unlocked(self) -> bool {
        self.sourceBits == 0 && !self.noSource
    }

    /// The rectangle of a surface that is both source and destination: what both
    /// rectangles span when warping, the whole surface otherwise.
    pub open spec fn shared_rect(self) -> SurfaceRect {
        if self.isWarping {
            let l = smaller_of(self.sx, self.dx);
            let t = smaller_of(self.sy, self.dy);
            SurfaceRect {
                left: l as i32,
                top: t as i32,
                width: (larger_of(self.sx, self.dx) + self.bbW - l) as i32,
                height: (larger_of(self.sy, self.dy) + self.bbH - t) as i32,
            }
        } else {
            SurfaceRect { left: 0, top: 0, width: self.sourceWidth, height: self.sourceHeight }
        }
    }

    /// The rectangles that warping spans fit 32 bits.
    pub open spec fn shared_fits(self) -> bool {
        self.isWarping ==> {
            &&& i32::MIN <= larger_of(self.sx, self.dx) + self.bbW <= i32::MAX
            &&& i32::MIN <= larger_of(self.sy, self.dy) + self.bbH <= i32::MAX
            &&& i32::MIN <= larger_of(self.sx, self.dx) + self.bbW - smaller_of(self.sx, self.dx)
                <= i32::MAX
            &&& i32::MIN <= larger_of(self.sy, self.dy) + self.bbH - smaller_of(self.sy, self.dy)
                <= i32::MAX
        }
    }

    /// The rectangle of a destination surface: that of the blit.
    pub open spec fn dest_rect(self) -> SurfaceRect {
        SurfaceRect { left: self.dx, top: self.dy, width: self.bbW, height: self.bbH }
    }

    /// The rectangle of a source surface: that of the blit, or all of it when
    /// warping.
    pub open spec fn source_rect(self) -> SurfaceRect {
        if self.isWarping {
            SurfaceRect { left: 0, top: 0, width: self.sourceWidth, height: self.sourceHeight }
        } else {
            SurfaceRect { left: self.sx, top: self.sy, width: self.bbW, height: self.bbH }
        }
    }

    /// The end of the source bits.
    pub open spec fn source_end(self) -> UsqInt {
        wrap_addr(self.sourceBits + self.sourcePitch * self.sourceHeight)
    }

    /// The end of the destination bits.
    pub open spec fn dest_end(self) -> UsqInt {
        wrap_addr(self.destBits + self.destPitch * self.destHeight)
    }

    /// The registers with the ends of both bitmaps noted; a source that is not
    /// there ends at 0.
    pub open spec fn with_ends(self) -> BitBlt {
        BitBlt {
            endOfSource: if self.noSource || self.sourceBits == 0 {
                0
            } else {
                self.source_end()
            },
            endOfDestination: self.dest_end(),
            ..self
        }
    }

    /// Both forms have addresses.
    pub open spec fn addressed(self) -> bool {
        self.destBits != 0 && (self.sourceBits != 0 || self.noSource)
    }

    /// The end of the dialogue.
    pub open spec fn lock_finish(self, raise: Option<PrimErr>) -> (BitBlt, LockStep) {
        (
            self.with_ends(),
            LockStep { raise, action: LockAction::Done(self.addressed()), state: LockState::Ended },
        )
    }

    /// What is left once the destination has been seen to.
    pub open spec fn lock_source(self, raise: Option<PrimErr>) -> (BitBlt, LockStep) {
        if self.source_unlocked() {
            (
                self,
                LockStep { raise, action: LockAction::FetchSource, state: LockState::SourceHandle },
            )
        } else {
            self.lock_finish(raise)
        }
    }

    /// The locks are taken back.
    pub open spec fn lock_fail(self, reason: PrimErr) -> (BitBlt, LockStep) {
        (self, plain_step(LockAction::GiveUp(reason), LockState::Ended))
    }

    /// The dialogue ends without the entry points.
    pub open spec fn lock_refuse(self) -> (BitBlt, LockStep) {
        (self, plain_step(LockAction::Done(false), LockState::Ended))
    }

    /// One step: the registers after it, and what to do next.
    pub open spec fn lock_step(self, state: LockState, e: LockEvent) -> (BitBlt, LockStep) {
        match (state, e) {
            (LockState::Start, _) => {
                let bb = BitBlt { hasSurfaceLock: false, ..self };
                if self.destBits != 0 {
                    bb.lock_source(None)
                } else if self.lockSurfaceFn == 0 {
                    (bb, plain_step(LockAction::Resolve, LockState::DestResolve))
                } else {
                    (bb, plain_step(LockAction::FetchDest, LockState::DestHandle))
                }
            },
            (LockState::DestResolve, LockEvent::Resolved { query, lock, unlock }) => {
                let bb = self.with_entry_points(query, lock, unlock);
                if query != 0 && lock != 0 && unlock != 0 {
                    (bb, plain_step(LockAction::FetchDest, LockState::DestHandle))
                } else {
                    bb.lock_refuse()
                }
            },
            (LockState::DestHandle, LockEvent::Handle { value, failed }) => {
                if self.source_unlocked() {
                    (
                        self,
                        plain_step(
                            LockAction::FetchSource,
                            LockState::SharedHandle { dest: value },
                        ),
                    )
                } else {
                    (
                        self,
                        plain_step(
                            LockAction::Lock { handle: value, rect: self.dest_rect() },
                            LockState::DestLock,
                        ),
                    )
                }
            },
            (LockState::SharedHandle { dest }, LockEvent::Handle { value, failed }) => {
                if value == dest {
                    (
                        self,
                        plain_step(
                            LockAction::Lock { handle: value, rect: self.shared_rect() },
                            LockState::SharedLock,
                        ),
                    )
                } else {
                    (
                        self,
                        plain_step(
                            LockAction::Lock { handle: dest, rect: self.dest_rect() },
                            LockState::DestLock,
                        ),
                    )
                }
            },
            (LockState::SharedLock, LockEvent::Locked { bits, pitch, moved }) => {
                let bb = BitBlt {
                    sourceBits: bits,
                    sourcePitch: pitch,
                    destBits: bits,
                    destPitch: pitch,
                    hasSurfaceLock: true,
                    ..self
                };
                if moved {
                    bb.lock_fail(PrimErr::ObjectMoved)
                } else if bits == 0 {
                    bb.lock_fail(PrimErr::CallbackError)
                } else {
                    (
                        BitBlt {
                            endOfSource: bb.source_end(),
                            endOfDestination: bb.source_end(),
                            ..bb
                        },
                        plain_step(LockAction::Done(true), LockState::Ended),
                    )
                }
            },
            (LockState::DestLock, LockEvent::Locked { bits, pitch, moved }) => {
                let bb = BitBlt {
                    destBits: bits,
                    destPitch: pitch,
                    hasSurfaceLock: true,
                    ..self
                };
                if moved {
                    bb.lock_fail(PrimErr::ObjectMoved)
                } else {
                    bb.lock_source(
                        if bits == 0 {
                            Some(PrimErr::CallbackError)
                        } else {
                            None
                        },
                    )
                }
            },
            (LockState::SourceHandle, LockEvent::Handle { value, failed }) => {
                if failed {
                    self.lock_refuse()
                } else if self.lockSurfaceFn == 0 {
                    (
                        self,
                        plain_step(
                            LockAction::Resolve,
                            LockState::SourceResolve { source: value },
                        ),
                    )
                } else {
                    (
                        self,
                        plain_step(
                            LockAction::Lock { handle: value, rect: self.source_rect() },
                            LockState::SourceLock,
                        ),
                    )
                }
            },
            (LockState::SourceResolve { source }, LockEvent::Resolved { query, lock, unlock }) => {
                let bb = self.with_entry_points(query, lock, unlock);
                if query != 0 && lock != 0 && unlock != 0 {
                    (
                        bb,
                        plain_step(
                            LockAction::Lock { handle: source, rect: bb.source_rect() },
                            LockState::SourceLock,
                        ),
                    )
                } else {
                    bb.lock_refuse()
                }
            },
            (LockState::SourceLock, LockEvent::Locked { bits, pitch, moved }) => {
                let bb = BitBlt {
                    sourceBits: bits,
                    sourcePitch: pitch,
                    hasSurfaceLock: true,
                    ..self
                };
                if moved {
                    bb.lock_fail(PrimErr::ObjectMoved)
                } else {
                    bb.lock_finish(
                        if bits == 0 {
                            Some(PrimErr::CallbackError)
                        } else {
                            None
                        },
                    )
                }
            },
            _ => self.lock_refuse(),
        }
    }

    /// The registers with the surface entry points noted.
    pub open spec fn with_entry_points(
        self,
        query: UsqInt,
        lock: UsqInt,
        unlock: UsqInt,
    ) -> BitBlt {
        BitBlt {
            querySurfaceFn: query,
            lockSurfaceFn: lock,
            unlockSurfaceFn: unlock,
            ..self
        }
    }

    /// Notes the surface entry points, each 0 when it was not found. Answers
    /// whether all are there.
    pub fn setEntryPoints(&mut self, query: UsqInt, lock: UsqInt, unlock: UsqInt) -> (r: bool)
        ensures
            *final(self) == old(self).with_entry_points(query, lock, unlock),
            r == (query != 0 && lock != 0 && unlock != 0),
    {
        self.querySurfaceFn = query;
        self.lockSurfaceFn = lock;
        self.unlockSurfaceFn = unlock;
        query != 0 && lock != 0 && unlock != 0
    }

    // ---- The steps --------------------------------------------------------

    fn bitmapEnd(bits: UsqInt, pitch: i32, height: i32) -> (r: UsqInt)
        ensures
            r == wrap_addr(bits + pitch * height),
    {
        proof {
            lemma_area(pitch as int, height as int);
        }
        stepped(bits, pitch as sqInt * height as sqInt)
    }

    fn lockFinish(&mut self, raise: Option<PrimErr>) -> (r: LockStep)
        ensures
            (*final(self), r) == old(self).lock_finish(raise),
    {
        self.endOfSource = if self.noSource || self.sourceBits == 0 {
            0
        } else {
            Self::bitmapEnd(self.sourceBits, self.sourcePitch, self.sourceHeight)
        };
        self.endOfDestination = Self::bitmapEnd(self.destBits, self.destPitch, self.destHeight);
        LockStep {
            raise,
            action: LockAction::Done(
                self.destBits != 0 && (self.sourceBits != 0 || self.noSource),
            ),
            state: LockState::Ended,
        }
    }

    fn lockSource(&mut self, raise: Option<PrimErr>) -> (r: LockStep)
        ensures
            (*final(self), r) == old(self).lock_source(raise),
    {
        if !(self.sourceBits != 0 || self.noSource) {
            LockStep { raise, action: LockAction::FetchSource, state: LockState::SourceHandle }
        } else {
            self.lockFinish(raise)
        }
    }

    fn sharedRect(&self) -> (r: SurfaceRect)
        requires
            self.shared_fits(),
        ensures
            r == self.shared_rect(),
    {
        if self.isWarping {
            let l: i32 = smallerOf(self.sx, self.dx);
            let r: i32 = largerOf(self.sx, self.dx) + self.bbW;
            let t: i32 = smallerOf(self.sy, self.dy);
            let b: i32 = largerOf(self.sy, self.dy) + self.bbH;
            SurfaceRect { left: l, top: t, width: r - l, height: b - t }
        } else {
            SurfaceRect { left: 0, top: 0, width: self.sourceWidth, height: self.sourceHeight }
        }
    }

    fn destRect(&self) -> (r: SurfaceRect)
        ensures
            r == self.dest_rect(),
    {
        SurfaceRect { left: self.dx, top: self.dy, width: self.bbW, height: self.bbH }
    }

    fn sourceRect(&self) -> (r: SurfaceRect)
        ensures
            r == self.source_rect(),
    {
        if self.isWarping {
            SurfaceRect { left: 0, top: 0, width: self.sourceWidth, height: self.sourceHeight }
        } else {
            SurfaceRect { left: self.sx, top: self.sy, width: self.bbW, height: self.bbH }
        }
    }

    /// Takes one step of the dialogue that gives both forms addresses.
    pub fn lockSurfaces(&mut self, state: LockState, event: LockEvent) -> (r: LockStep)
        requires
            state.expects(event),
            old(self).shared_fits(),
        ensures
            (*final(self), r) == old(self).lock_step(state, event),
    {
        match (state, event) {
            (LockState::Start, _) => {
                self.hasSurfaceLock = false;
                if self.destBits != 0 {
                    self.lockSource(None)
                } else if self.lockSurfaceFn == 0 {
                    plainStep(LockAction::Resolve, LockState::DestResolve)
                } else {
                    plainStep(LockAction::FetchDest, LockState::DestHandle)
                }
            },
            (LockState::DestResolve, LockEvent::Resolved { query, lock, unlock }) => {
                if self.setEntryPoints(query, lock, unlock) {
                    plainStep(LockAction::FetchDest, LockState::DestHandle)
                } else {
                    plainStep(LockAction::Done(false), LockState::Ended)
                }
            },
            (LockState::DestHandle, LockEvent::Handle { value, failed }) => {
                if !(self.sourceBits != 0 || self.noSource) {
                    plainStep(LockAction::FetchSource, LockState::SharedHandle { dest: value })
                } else {
                    plainStep(
                        LockAction::Lock { handle: value, rect: self.destRect() },
                        LockState::DestLock,
                    )
                }
            },
            (LockState::SharedHandle { dest }, LockEvent::Handle { value, failed }) => {
                if value == dest {
                    plainStep(
                        LockAction::Lock { handle: value, rect: self.sharedRect() },
                        LockState::SharedLock,
                    )
                } else {
                    plainStep(
                        LockAction::Lock { handle: dest, rect: self.destRect() },
                        LockState::DestLock,
                    )
                }
            },
            (LockState::SharedLock, LockEvent::Locked { bits, pitch, moved }) => {
                self.sourceBits = bits;
                self.sourcePitch = pitch;
                self.destBits = bits;
                self.destPitch = pitch;
                self.hasSurfaceLock = true;
                if moved {
                    return plainStep(
                        LockAction::GiveUp(PrimErr::ObjectMoved),
                        LockState::Ended,
                    );
                }
                if bits == 0 {
                    return plainStep(
                        LockAction::GiveUp(PrimErr::CallbackError),
                        LockState::Ended,
                    );
                }
                self.endOfSource = Self::bitmapEnd(bits, pitch, self.sourceHeight);
                self.endOfDestination = self.endOfSource;
                plainStep(LockAction::Done(true), LockState::Ended)
            },
            (LockState::DestLock, LockEvent::Locked { bits, pitch, moved }) => {
                self.destBits = bits;
                self.destPitch = pitch;
                self.hasSurfaceLock = true;
                if moved {
                    return plainStep(
                        LockAction::GiveUp(PrimErr::ObjectMoved),
                        LockState::Ended,
                    );
                }
                self.lockSource(
                    if bits == 0 {
                        Some(PrimErr::CallbackError)
                    } else {
                        None
                    },
                )
            },
            (LockState::SourceHandle, LockEvent::Handle { value, failed }) => {
                if failed {
                    plainStep(LockAction::Done(false), LockState::Ended)
                } else if self.lockSurfaceFn == 0 {
                    plainStep(LockAction::Resolve, LockState::SourceResolve { source: value })
                } else {
                    plainStep(
                        LockAction::Lock { handle: value, rect: self.sourceRect() },
                        LockState::SourceLock,
                    )
                }
            },
            (LockState::SourceResolve { source }, LockEvent::Resolved { query, lock, unlock }) => {
                if self.setEntryPoints(query, lock, unlock) {
                    plainStep(
                        LockAction::Lock { handle: source, rect: self.sourceRect() },
                        LockState::SourceLock,
                    )
                } else {
                    plainStep(LockAction::Done(false), LockState::Ended)
                }
            },
            (LockState::SourceLock, LockEvent::Locked { bits, pitch, moved }) => {
                self.sourceBits = bits;
                self.sourcePitch = pitch;
                self.hasSurfaceLock = true;
                if moved {
                    return plainStep(
                        LockAction::GiveUp(PrimErr::ObjectMoved),
                        LockState::Ended,
                    );
                }
                self.lockFinish(
                    if bits == 0 {
                        Some(PrimErr::CallbackError)
                    } else {
                        None
                    },
                )
            },
            _ => plainStep(LockAction::Done(false), LockState::Ended),
        }
    }
}

// ---- Unlocking ------------------------------------------------------------

/// A surface to unlock, with the rectangle that has changed.
#[derive(Debug, Clone, Copy, PartialEq, Eq, Structural)]
pub struct Unlock {
    pub handle: sqInt,
    pub rect: SurfaceRect,
}

impl BitBlt {
    /// The rectangle that the last blit changed.
    pub open spec fn affected_rect(self) -> SurfaceRect {
        SurfaceRect {
            left: self.affectedL as i32,
            top: self.affectedT as i32,
            width: (self.affectedR - self.affectedL) as i32,
            height: (self.affectedB - self.affectedT) as i32,
        }
    }

    /// Takes leave of the destination: if it is a surface it loses its address,
    /// and is to be unlocked with all that the blit changed.
    pub fn unlockDest(&mut self, handle: Option<sqInt>) -> (r: Option<Unlock>)
        requires
            sqInt::MIN <= old(self).affectedR - old(self).affectedL <= sqInt::MAX,
            sqInt::MIN <= old(self).affectedB - old(self).affectedT <= sqInt::MAX,
        ensures
            match handle {
                Some(h) => {
                    &&& r == Some(Unlock { handle: h, rect: old(self).affected_rect() })
                    &&& *final(self) == (BitBlt { destBits: 0, destPitch: 0, ..*old(self) })
                },
                None => r is None && *final(self) == *old(self),
            },
    {
        match handle {
            Some(h) => {
                self.destBits = 0;
                self.destPitch = 0;
                Some(
                    Unlock {
                        handle: h,
                        rect: SurfaceRect {
                            left: self.affectedL as i32,
                            top: self.affectedT as i32,
                            width: (self.affectedR - self.affectedL) as i32,
                            height: (self.affectedB - self.affectedT) as i32,
                        },
                    },
                )
            },
            None => None,
        }
    }

    /// Takes leave of the source: if it is a surface it loses its address, and
    /// is to be unlocked unless it went with the destination. Nothing is locked
    /// any more.
    pub fn unlockSource(&mut self, handle: Option<sqInt>, dest: Option<sqInt>) -> (r: Option<
        Unlock,
    >)
        ensures
            match handle {
                Some(h) if !old(self).noSource => {
                    &&& r == (if dest == Some(h) {
                        None
                    } else {
                        Some(
                            Unlock {
                                handle: h,
                                rect: SurfaceRect { left: 0, top: 0, width: 0, height: 0 },
                            },
                        )
                    })
                    &&& *final(self) == (BitBlt {
                        sourceBits: 0,
                        sourcePitch: 0,
                        hasSurfaceLock: false,
                        ..*old(self)
                    })
                },
                _ => r is None && *final(self) == (BitBlt { hasSurfaceLock: false, ..*old(self) }),
            },
    {
        self.hasSurfaceLock = false;
        if self.noSource {
            return None;
        }
        match handle {
            Some(h) => {
                self.sourceBits = 0;
                self.sourcePitch = 0;
                match dest {
                    Some(d) => if d == h {
                        None
                    } else {
                        Some(
                            Unlock {
                                handle: h,
                                rect: SurfaceRect { left: 0, top: 0, width: 0, height: 0 },
                            },
                        )
                    },
                    None => Some(
                        Unlock {
                            handle: h,
                            rect: SurfaceRect { left: 0, top: 0, width: 0, height: 0 },
                        },
                    ),
                }
            },
            None => None,
        }
    }

    /// Forgets the surface entry points when the module that holds them goes
    /// away.
    pub fn moduleUnloaded(&mut self, name: &[u8])
        ensures
            *final(self) == (if name@ == surface_plugin() {
                old(self).with_entry_points(0, 0, 0)
            } else {
                *old(self)
            }),
    {
        if isSurfacePlugin(name) {
            self.querySurfaceFn = 0;
            self.lockSurfaceFn = 0;
            self.unlockSurfaceFn = 0;
        }
    }

    // ---- Laws -------------------------------------------------------------

    /// The dialogue says that the forms have addresses only when they do, and
    /// then the ends of the bitmaps are noted.
    pub proof fn lemma_done_means_addressed(self, state: LockState, e: LockEvent)
        requires
            state.expects(e),
            self.lock_step(state, e).1.action == LockAction::Done(true),
        ensures
            self.lock_step(state, e).0.addressed(),
            !self.noSource ==> self.lock_step(state, e).1.raise is None,
            !self.noSource ==> self.lock_step(state, e).0.endOfSource == self.lock_step(
                state,
                e,
            ).0.source_end(),
            !(state is SharedLock) ==> self.lock_step(state, e).0.endOfDestination
                == self.lock_step(state, e).0.dest_end(),
    {
    }

    /// Locks are taken back only while there are some: a step that gives up comes
    /// right after a lock, and the registers say so.
    pub proof fn lemma_give_up_after_lock(self, state: LockState, e: LockEvent)
        requires
            state.expects(e),
            self.lock_step(state, e).1.action is GiveUp,
        ensures
            e is Locked,
            self.lock_step(state, e).0.hasSurfaceLock,
    {
    }

    /// Forms that already have addresses need no lock: the dialogue is over at
    /// once.
    pub proof fn lemma_addressed_forms_need_no_lock(self)
        requires
            self.addressed(),
        ensures
            self.lock_step(LockState::Start, LockEvent::Begin) == (
                (BitBlt { hasSurfaceLock: false, ..self }).with_ends(),
                plain_step(LockAction::Done(true), LockState::Ended),
            ),
    {
    }

    /// Every step leads on: from each state, an expected event leads to a state
    /// that comes later, so the dialogue ends.
    pub proof fn lemma_lock_advances(self, state: LockState, e: LockEvent)
        requires
            state.expects(e),
        ensures
            lock_rank(state) < lock_rank(self.lock_step(state, e).1.state),
    {
    }
}

/// How far a state is along the dialogue.
pub open spec fn lock_rank(state: LockState) -> int {
    match state {
        LockState::Start => 0,
        LockState::DestResolve => 1,
        LockState::DestHandle => 2,
        LockState::SharedHandle { dest } => 3,
        LockState::SharedLock => 4,
        LockState::DestLock => 4,
        LockState::SourceHandle => 5,
        LockState::SourceResolve { source } => 6,
        LockState::SourceLock => 7,
        LockState::Ended => 8,
    }
}

/// The name of the module that holds the surface entry points, in ASCII:
/// `SurfacePlugin`.
pub const SURFACE_PLUGIN: [u8; 13] = [
    83, 117, 114, 102, 97, 99, 101, 80, 108, 117, 103, 105, 110,
];

/// The name as a sequence.
pub open spec fn surface_plugin() -> Seq<u8> {
    SURFACE_PLUGIN@
}

fn isSurfacePlugin(name: &[u8]) -> (r: bool)
    ensures
        r == (name@ == surface_plugin()),
{
    if name.len() != 13 {
        return false;
    }
    let mut i: usize = 0;
    while i < 13
        invariant
            name@.len() == 13,
            i <= 13,
            forall|j: int| 0 <= j < i ==> name@[j] == SURFACE_PLUGIN@[j],
        decreases 13 - i,
    {
        if name[i] != SURFACE_PLUGIN[i] {
            return false;
        }
        i = i + 1;
    }
    assert(name@ =~= surface_plugin());
    true
}

} // verus!
