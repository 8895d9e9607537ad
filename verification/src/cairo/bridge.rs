//! Lending a context to another plugin, for one call.
use vstd::prelude::*;
use crate::prim::sqInt;
use crate::cairo::ffi::cairo_t;
use crate::cairo::resources::{with_context, Resources};

verus! {

/// The version of the bridge.
pub const BRIDGE_ABI: u32 = 1;

/// The bytes of [`CairoBridgeContextV1`] as it is written out: six fields
/// without a gap.
pub const BRIDGE_SIZE: u32 = 32;

/// What a borrower is told. The layout never changes under this version.
#[derive(Debug, Clone, Copy, PartialEq, Eq, Structural)]
pub struct CairoBridgeContextV1 {
    /// [`BRIDGE_SIZE`].
    pub size: u32,
    /// [`BRIDGE_ABI`].
    pub abi: u32,
    /// The address of the context; never 0.
    pub cr: u64,
    /// The address of the library's function that makes contexts.
    pub cairo_identity: u64,
    /// The status of the context. One that is not 0 means that it draws no more.
    pub status: i32,
    /// 0.
    pub reserved: i32,
}

/// The loaded library, as far as the bridge asks for it: where it makes contexts
/// and where it answers their status, if it does.
#[derive(Debug, Clone, Copy, PartialEq, Eq, Structural)]
pub struct LoadedCairo {
    pub create: Option<u64>,
    pub status: bool,
}

/// The highest version of the bridge that is understood.
pub fn cairoPluginBridgeAbiVersion() -> (r: u32)
    ensures
        r == BRIDGE_ABI,
{
    BRIDGE_ABI
}

/// The address that tells one loaded library from another; 0 without one.
pub fn cairoPluginCairoIdentity_v1(cairo: &Option<LoadedCairo>) -> (r: u64)
    ensures
        r == (match *cairo {
            Some(c) => match c.create {
                Some(create) => create,
                None => 0,
            },
            None => 0,
        }),
{
    match cairo {
        Some(c) => match c.create {
            Some(create) => create,
            None => 0,
        },
        None => 0,
    }
}

/// The context that a handle names, if it has an address.
pub open spec fn live_context(all: Resources, handle: int) -> Option<cairo_t> {
    match all.contexts.found(handle) {
        Ok(i) => {
            let cr = all.contexts@[i].1.ptr;
            if cr.address == 0 {
                None
            } else {
                Some(cr)
            }
        },
        Err(_) => None,
    }
}

fn liveContext(all: &Resources, handle: sqInt) -> (r: Option<cairo_t>)
    requires
        all.inv(),
    ensures
        r == live_context(*all, handle as int),
{
    match with_context(all, handle) {
        Ok(cr) => if cr.address == 0 {
            None
        } else {
            Some(cr)
        },
        Err(_) => None,
    }
}

/// The context to lend, with the library's identity. Nothing is lent without a
/// place to write to, with another size than the one agreed on, without a
/// library that makes contexts and answers for them, or for a handle that names
/// no context.
pub open spec fn lent(
    all: Resources,
    cairo: Option<LoadedCairo>,
    handle: int,
    has_out: bool,
    out_size: u32,
) -> Option<(cairo_t, u64)> {
    if !has_out || out_size != BRIDGE_SIZE {
        None
    } else {
        match cairo {
            Some(LoadedCairo { create: Some(create), status: true }) => match live_context(
                all,
                handle,
            ) {
                Some(cr) => Some((cr, create)),
                None => None,
            },
            _ => None,
        }
    }
}

/// The context to lend for one call, with the library's identity. Its status is
/// asked next, and [`bridgeContext`] is what is written out.
pub fn cairoPluginBorrowContext_v1(
    all: &Resources,
    cairo: &Option<LoadedCairo>,
    handle: sqInt,
    has_out: bool,
    out_size: u32,
) -> (r: Option<(cairo_t, u64)>)
    requires
        all.inv(),
    ensures
        r == lent(*all, *cairo, handle as int, has_out, out_size),
{
    if !has_out || out_size != BRIDGE_SIZE {
        return None;
    }
    match cairo {
        Some(c) => match c.create {
            Some(create) => {
                if !c.status {
                    return None;
                }
                match liveContext(all, handle) {
                    Some(cr) => Some((cr, create)),
                    None => None,
                }
            },
            None => None,
        },
        None => None,
    }
}

/// What the borrower of a context with this status is told.
pub fn bridgeContext(cr: cairo_t, identity: u64, status: i32) -> (r: CairoBridgeContextV1)
    ensures
        r == (CairoBridgeContextV1 {
            size: BRIDGE_SIZE,
            abi: BRIDGE_ABI,
            cr: cr.address,
            cairo_identity: identity,
            status,
            reserved: 0,
        }),
{
    CairoBridgeContextV1 {
        size: BRIDGE_SIZE,
        abi: BRIDGE_ABI,
        cr: cr.address,
        cairo_identity: identity,
        status,
        reserved: 0,
    }
}

/// The context whose status a borrower asks for, if it can be asked. Without one
/// the answer is [`NO_STATUS`], which no status is equal to.
pub fn cairoPluginContextStatus_v1(
    all: &Resources,
    cairo: &Option<LoadedCairo>,
    handle: sqInt,
) -> (r: Option<cairo_t>)
    requires
        all.inv(),
    ensures
        r == (match *cairo {
            Some(c) if c.status => live_context(*all, handle as int),
            _ => None,
        }),
{
    match cairo {
        Some(c) => if c.status {
            liveContext(all, handle)
        } else {
            None
        },
        None => None,
    }
}

/// The answer where no status can be asked for.
pub const NO_STATUS: i32 = -1;

/// A context that was destroyed is not lent any more.
pub proof fn lemma_a_destroyed_context_is_not_lent(
    all: Resources,
    cairo: Option<LoadedCairo>,
    handle: int,
    has_out: bool,
    out_size: u32,
    after: Resources,
)
    requires
        all.inv(),
        all.contexts.found(handle) is Ok,
        after.inv(),
        after.contexts@ == all.contexts@.remove(all.contexts.found(handle)->Ok_0),
    ensures
        lent(after, cairo, handle, has_out, out_size) is None,
{
    crate::cairo::handles::lemma_gone_after_remove(all.contexts, handle, handle);
}

} // verus!
