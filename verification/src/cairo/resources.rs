//! The three kinds of object that the image holds handles on, and how they are
//! taken in and let go.
use vstd::prelude::*;
use crate::prim::{sqInt, PrimErr, PrimResult};
use crate::cairo::ffi::{cairo_pattern_t, cairo_surface_t, cairo_t, check_status};
use crate::cairo::handles::Registry;

verus! {

/// The tags of the three kinds of handle.
pub const SURFACE_TAG: u64 = 1;

pub const CONTEXT_TAG: u64 = 2;

pub const PATTERN_TAG: u64 = 3;

/// A drawing target, and the object of the image it draws into, if any. The
/// object is pinned for as long as the target can reach it.
#[derive(Debug, Clone, Copy, PartialEq, Eq, Structural)]
pub struct Surface {
    pub ptr: cairo_surface_t,
    pub backing: Option<u64>,
}

/// A drawing context.
#[derive(Debug, Clone, Copy, PartialEq, Eq, Structural)]
pub struct Context {
    pub ptr: cairo_t,
}

/// A source of paint.
#[derive(Debug, Clone, Copy, PartialEq, Eq, Structural)]
pub struct Pattern {
    pub ptr: cairo_pattern_t,
}

/// What becomes of the pin on a surface's object when the surface is let go.
#[derive(Debug, Clone, Copy, PartialEq, Eq, Structural)]
pub enum Pin {
    /// There is none.
    Nothing,
    /// It is released.
    Unpin(u64),
    /// It is kept: something else may still draw into the object.
    Retain(u64),
}

/// Whether an object that was just made can be taken in: it has an address, and
/// it is in no error state. The status counts only where there is an address.
pub open spec fn adoption(address: u64, status: i32) -> PrimResult<()> {
    if address == 0 {
        Err(PrimErr::NoCMemory)
    } else {
        crate::cairo::ffi::status_result(status as int)
    }
}

/// Whether an object that was just made can be taken in.
pub fn adoptable(address: u64, status: i32) -> (r: PrimResult<()>)
    ensures
        r == adoption(address, status),
{
    if address == 0 {
        return Err(PrimErr::NoCMemory);
    }
    check_status(status)
}

impl Surface {
    /// Takes in a surface that was just made and has this status. One that is
    /// refused has to be destroyed again.
    pub fn adopt(ptr: cairo_surface_t, backing: Option<u64>, status: i32) -> (r: PrimResult<Self>)
        ensures
            match r {
                Ok(s) => adoption(ptr.address, status) is Ok && s == (Surface { ptr, backing }),
                Err(e) => adoption(ptr.address, status) == Err::<(), PrimErr>(e),
            },
    {
        adoptable(ptr.address, status)?;
        Ok(Surface { ptr, backing })
    }

    /// The surface itself, for one call.
    pub fn as_ptr(&self) -> (r: cairo_surface_t)
        ensures
            r == self.ptr,
    {
        self.ptr
    }

    /// What becomes of the pin. Nothing reaches the object any more where the
    /// handle held the last reference; where the number of references is not
    /// known, or no interpreter is there to unpin with, the pin is kept.
    pub open spec fn pin_after(self, references: Option<u32>, interpreter: bool) -> Pin {
        match self.backing {
            None => Pin::Nothing,
            Some(object) => if interpreter && references is Some && references->0 <= 1 {
                Pin::Unpin(object)
            } else {
                Pin::Retain(object)
            },
        }
    }

    /// Lets the surface go. `references` is how many there were before it was
    /// destroyed, if that can be asked.
    pub fn release(self, references: Option<u32>, interpreter: bool) -> (r: Pin)
        ensures
            r == self.pin_after(references, interpreter),
    {
        let sole_owner: bool = match references {
            Some(n) => n <= 1,
            None => false,
        };
        match self.backing {
            None => Pin::Nothing,
            Some(object) => if sole_owner && interpreter {
                Pin::Unpin(object)
            } else {
                Pin::Retain(object)
            },
        }
    }
}

impl Context {
    /// Takes in a context that was just made and has this status.
    pub fn adopt(ptr: cairo_t, status: i32) -> (r: PrimResult<Self>)
        ensures
            match r {
                Ok(c) => adoption(ptr.address, status) is Ok && c == (Context { ptr }),
                Err(e) => adoption(ptr.address, status) == Err::<(), PrimErr>(e),
            },
    {
        adoptable(ptr.address, status)?;
        Ok(Context { ptr })
    }

    /// The context itself, for one call.
    pub fn as_ptr(&self) -> (r: cairo_t)
        ensures
            r == self.ptr,
    {
        self.ptr
    }
}

impl Pattern {
    /// Takes in a pattern that was just made and has this status.
    pub fn adopt(ptr: cairo_pattern_t, status: i32) -> (r: PrimResult<Self>)
        ensures
            match r {
                Ok(p) => adoption(ptr.address, status) is Ok && p == (Pattern { ptr }),
                Err(e) => adoption(ptr.address, status) == Err::<(), PrimErr>(e),
            },
    {
        adoptable(ptr.address, status)?;
        Ok(Pattern { ptr })
    }

    /// The pattern itself, for one call.
    pub fn as_ptr(&self) -> (r: cairo_pattern_t)
        ensures
            r == self.ptr,
    {
        self.ptr
    }
}

/// Everything that the image holds handles on, and the pins that outlived their
/// surfaces.
#[derive(Debug)]
pub struct Resources {
    pub surfaces: Registry<Surface>,
    pub contexts: Registry<Context>,
    pub patterns: Registry<Pattern>,
    pub retained: Vec<u64>,
}

/// What was let go at the end. Contexts and patterns refer to surfaces, so they
/// are destroyed before them.
#[derive(Debug)]
pub struct Released {
    pub contexts: Vec<Context>,
    pub patterns: Vec<Pattern>,
    pub surfaces: Vec<Surface>,
}

impl Resources {
    /// Each kind has a tag of its own.
    pub open spec fn inv(&self) -> bool {
        &&& self.surfaces.inv() && self.surfaces.tag == SURFACE_TAG
        &&& self.contexts.inv() && self.contexts.tag == CONTEXT_TAG
        &&& self.patterns.inv() && self.patterns.tag == PATTERN_TAG
    }

    /// Nothing is held.
    pub open spec fn is_empty(&self) -> bool {
        &&& self.surfaces@.len() == 0
        &&& self.contexts@.len() == 0
        &&& self.patterns@.len() == 0
    }

    /// Nothing is held yet.
    pub fn new() -> (r: Self)
        ensures
            r.inv(),
            r.is_empty(),
            r.retained@.len() == 0,
    {
        Resources {
            surfaces: Registry::new(SURFACE_TAG),
            contexts: Registry::new(CONTEXT_TAG),
            patterns: Registry::new(PATTERN_TAG),
            retained: Vec::new(),
        }
    }

    /// How many surfaces, contexts and patterns there are.
    pub fn live_counts(&self) -> (r: [usize; 3])
        ensures
            r@ == seq![
                self.surfaces@.len() as usize,
                self.contexts@.len() as usize,
                self.patterns@.len() as usize,
            ],
    {
        let r: [usize; 3] = [self.surfaces.len(), self.contexts.len(), self.patterns.len()];
        assert(r@ =~= seq![
            self.surfaces@.len() as usize,
            self.contexts@.len() as usize,
            self.patterns@.len() as usize,
        ]);
        r
    }

    /// Notes a pin that outlives its surface.
    pub fn retain(&mut self, object: u64)
        requires
            old(self).inv(),
        ensures
            final(self).inv(),
            final(self).surfaces == old(self).surfaces,
            final(self).contexts == old(self).contexts,
            final(self).patterns == old(self).patterns,
            final(self).retained@ == old(self).retained@.push(object),
    {
        self.retained.push(object);
    }
}

/// How many pins are held past the end of their surfaces.
pub fn retained_pin_count(all: &Resources) -> (r: usize)
    ensures
        r == all.retained@.len(),
{
    all.retained.len()
}

/// The surface that a handle names.
pub fn with_surface(all: &Resources, handle: sqInt) -> (r: PrimResult<cairo_surface_t>)
    requires
        all.inv(),
    ensures
        match r {
            Ok(ptr) => all.surfaces.found(handle as int) is Ok && ptr
                == all.surfaces@[all.surfaces.found(handle as int)->Ok_0].1.ptr,
            Err(e) => all.surfaces.found(handle as int) == Err::<int, PrimErr>(e),
        },
{
    match all.surfaces.get(handle) {
        Ok(s) => Ok(s.as_ptr()),
        Err(e) => Err(e),
    }
}

/// The context that a handle names.
pub fn with_context(all: &Resources, handle: sqInt) -> (r: PrimResult<cairo_t>)
    requires
        all.inv(),
    ensures
        match r {
            Ok(ptr) => all.contexts.found(handle as int) is Ok && ptr
                == all.contexts@[all.contexts.found(handle as int)->Ok_0].1.ptr,
            Err(e) => all.contexts.found(handle as int) == Err::<int, PrimErr>(e),
        },
{
    match all.contexts.get(handle) {
        Ok(c) => Ok(c.as_ptr()),
        Err(e) => Err(e),
    }
}

/// The pattern that a handle names.
pub fn with_pattern(all: &Resources, handle: sqInt) -> (r: PrimResult<cairo_pattern_t>)
    requires
        all.inv(),
    ensures
        match r {
            Ok(ptr) => all.patterns.found(handle as int) is Ok && ptr
                == all.patterns@[all.patterns.found(handle as int)->Ok_0].1.ptr,
            Err(e) => all.patterns.found(handle as int) == Err::<int, PrimErr>(e),
        },
{
    match all.patterns.get(handle) {
        Ok(p) => Ok(p.as_ptr()),
        Err(e) => Err(e),
    }
}

/// Takes out the surface that a handle names, to be destroyed. A second time
/// fails.
pub fn destroy_surface(all: &mut Resources, handle: sqInt) -> (r: PrimResult<Surface>)
    requires
        old(all).inv(),
    ensures
        final(all).inv(),
        final(all).contexts == old(all).contexts,
        final(all).patterns == old(all).patterns,
        final(all).retained == old(all).retained,
        match r {
            Ok(s) => {
                &&& old(all).surfaces.found(handle as int) is Ok
                &&& s == old(all).surfaces@[old(all).surfaces.found(handle as int)->Ok_0].1
                &&& final(all).surfaces@ == old(all).surfaces@.remove(
                    old(all).surfaces.found(handle as int)->Ok_0,
                )
                &&& final(all).surfaces.next == old(all).surfaces.next
            },
            Err(e) => {
                &&& old(all).surfaces.found(handle as int) == Err::<int, PrimErr>(e)
                &&& *final(all) == *old(all)
            },
        },
{
    all.surfaces.remove(handle)
}

/// Takes out the context that a handle names, to be destroyed.
pub fn destroy_context(all: &mut Resources, handle: sqInt) -> (r: PrimResult<Context>)
    requires
        old(all).inv(),
    ensures
        final(all).inv(),
        final(all).surfaces == old(all).surfaces,
        final(all).patterns == old(all).patterns,
        final(all).retained == old(all).retained,
        match r {
            Ok(c) => {
                &&& old(all).contexts.found(handle as int) is Ok
                &&& c == old(all).contexts@[old(all).contexts.found(handle as int)->Ok_0].1
                &&& final(all).contexts@ == old(all).contexts@.remove(
                    old(all).contexts.found(handle as int)->Ok_0,
                )
                &&& final(all).contexts.next == old(all).contexts.next
            },
            Err(e) => {
                &&& old(all).contexts.found(handle as int) == Err::<int, PrimErr>(e)
                &&& *final(all) == *old(all)
            },
        },
{
    all.contexts.remove(handle)
}

/// Takes out the pattern that a handle names, to be destroyed.
pub fn destroy_pattern(all: &mut Resources, handle: sqInt) -> (r: PrimResult<Pattern>)
    requires
        old(all).inv(),
    ensures
        final(all).inv(),
        final(all).surfaces == old(all).surfaces,
        final(all).contexts == old(all).contexts,
        final(all).retained == old(all).retained,
        match r {
            Ok(p) => {
                &&& old(all).patterns.found(handle as int) is Ok
                &&& p == old(all).patterns@[old(all).patterns.found(handle as int)->Ok_0].1
                &&& final(all).patterns@ == old(all).patterns@.remove(
                    old(all).patterns.found(handle as int)->Ok_0,
                )
                &&& final(all).patterns.next == old(all).patterns.next
            },
            Err(e) => {
                &&& old(all).patterns.found(handle as int) == Err::<int, PrimErr>(e)
                &&& *final(all) == *old(all)
            },
        },
{
    all.patterns.remove(handle)
}

/// Takes everything out, to be destroyed in the order of the answer: contexts,
/// patterns, then surfaces, which are then the last to be referred to.
pub fn release_all(all: &mut Resources) -> (r: Released)
    requires
        old(all).inv(),
    ensures
        final(all).inv(),
        final(all).is_empty(),
        final(all).retained == old(all).retained,
        r.contexts@ == crate::cairo::handles::objects(old(all).contexts@),
        r.patterns@ == crate::cairo::handles::objects(old(all).patterns@),
        r.surfaces@ == crate::cairo::handles::objects(old(all).surfaces@),
{
    let contexts: Vec<Context> = all.contexts.drain();
    let patterns: Vec<Pattern> = all.patterns.drain();
    let surfaces: Vec<Surface> = all.surfaces.drain();
    Released { contexts, patterns, surfaces }
}

/// A handle that leads to a context leads to no surface and to no pattern: it is
/// refused as an argument, whatever they hold. The same holds of the other two
/// kinds.
pub proof fn lemma_a_handle_has_one_kind(all: Resources, handle: int)
    requires
        all.inv(),
    ensures
        all.contexts.found(handle) is Ok ==> all.surfaces.found(handle) == Err::<int, PrimErr>(
            PrimErr::BadArgument,
        ) && all.patterns.found(handle) == Err::<int, PrimErr>(PrimErr::BadArgument),
        all.surfaces.found(handle) is Ok ==> all.contexts.found(handle) == Err::<int, PrimErr>(
            PrimErr::BadArgument,
        ) && all.patterns.found(handle) == Err::<int, PrimErr>(PrimErr::BadArgument),
        all.patterns.found(handle) is Ok ==> all.contexts.found(handle) == Err::<int, PrimErr>(
            PrimErr::BadArgument,
        ) && all.surfaces.found(handle) == Err::<int, PrimErr>(PrimErr::BadArgument),
{
}

} // verus!
