//! The library's objects, statuses, formats and entry points.
use vstd::prelude::*;
use crate::prim::{PrimErr, PrimResult};

verus! {

/// A drawing context, by its address.
#[derive(Debug, Clone, Copy, PartialEq, Eq, Structural)]
pub struct cairo_t {
    pub address: u64,
}

/// A drawing target, by its address.
#[derive(Debug, Clone, Copy, PartialEq, Eq, Structural)]
pub struct cairo_surface_t {
    pub address: u64,
}

/// A source of paint, by its address.
#[derive(Debug, Clone, Copy, PartialEq, Eq, Structural)]
pub struct cairo_pattern_t {
    pub address: u64,
}

/// Every other status is an error.
pub const CAIRO_STATUS_SUCCESS: i32 = 0;

pub const CAIRO_STATUS_NO_MEMORY: i32 = 1;

/// What a surface that could not be made answers.
pub const CAIRO_STATUS_NULL_POINTER: i32 = 9;

/// The lowest format that is accepted, with 32 bits for alpha and color. The
/// invalid format is below it.
pub const CAIRO_FORMAT_MIN: i32 = 0;

/// The highest format that is accepted, with 16 bits for color.
pub const CAIRO_FORMAT_MAX: i32 = 4;

/// What a status means for the primitive that got it.
pub open spec fn status_result(status: int) -> PrimResult<()> {
    if status == CAIRO_STATUS_SUCCESS {
        Ok(())
    } else if status == CAIRO_STATUS_NO_MEMORY {
        Err(PrimErr::NoCMemory)
    } else if status == CAIRO_STATUS_NULL_POINTER {
        Err(PrimErr::BadArgument)
    } else {
        Err(PrimErr::OperationFailed)
    }
}

/// Turns a status into a primitive's outcome. An object that hit an error keeps
/// it and ignores everything afterwards, so the primitive that caused it fails.
pub fn check_status(status: i32) -> (r: PrimResult<()>)
    ensures
        r == status_result(status as int),
{
    if status == CAIRO_STATUS_SUCCESS {
        Ok(())
    } else if status == CAIRO_STATUS_NO_MEMORY {
        Err(PrimErr::NoCMemory)
    } else if status == CAIRO_STATUS_NULL_POINTER {
        Err(PrimErr::BadArgument)
    } else {
        Err(PrimErr::OperationFailed)
    }
}

/// Whether a format is handed on.
pub open spec fn valid_format(format: int) -> bool {
    CAIRO_FORMAT_MIN <= format <= CAIRO_FORMAT_MAX
}

/// Is this a format that is handed on? Any other would make a surface that
/// ignores every later call.
pub fn is_valid_format(format: i32) -> (r: bool)
    ensures
        r == valid_format(format as int),
{
    CAIRO_FORMAT_MIN <= format && format <= CAIRO_FORMAT_MAX
}

/// The bytes of one pixel: four for the formats with alpha and with color
/// alone, one for alpha alone, two for 16 bit color. A mask of single bits has
/// no whole bytes.
pub open spec fn bytes_per_pixel(format: int) -> Option<usize> {
    if format == 0 || format == 1 {
        Some(4)
    } else if format == 2 {
        Some(1)
    } else if format == 4 {
        Some(2)
    } else {
        None
    }
}

/// Bytes per pixel in a format, where that is a whole number.
pub fn format_bytes_per_pixel(format: i32) -> (r: Option<usize>)
    ensures
        r == bytes_per_pixel(format as int),
{
    match format {
        0 | 1 => Some(4),
        2 => Some(1),
        4 => Some(2),
        _ => None,
    }
}

/// Which of the entry points the loaded library exports, in the order in which
/// they are declared.
#[derive(Debug)]
pub struct EntryPoints {
    pub found: Vec<bool>,
}

/// How many of the first `n` are found.
pub open spec fn found_among(found: Seq<bool>, n: nat) -> nat
    decreases n,
{
    if n == 0 {
        0
    } else {
        found_among(found, (n - 1) as nat) + (if found[n - 1] {
            1nat
        } else {
            0nat
        })
    }
}

/// The places among the first `n` that are not found.
pub open spec fn missing_among(found: Seq<bool>, n: nat) -> Seq<usize>
    decreases n,
{
    if n == 0 {
        seq![]
    } else if found[n - 1] {
        missing_among(found, (n - 1) as nat)
    } else {
        missing_among(found, (n - 1) as nat).push((n - 1) as usize)
    }
}

impl EntryPoints {
    /// How many entry points the library exports.
    pub fn resolved_count(&self) -> (r: usize)
        ensures
            r == found_among(self.found@, self.found@.len()),
            r <= self.found@.len(),
    {
        let total: usize = self.found.len();
        let mut n: usize = 0;
        let mut i: usize = 0;
        while i < total
            invariant
                i <= total,
                total == self.found@.len(),
                n == found_among(self.found@, i as nat),
                n <= i,
            decreases total - i,
        {
            if self.found[i] {
                n = n + 1;
            }
            i = i + 1;
        }
        n
    }

    /// How many entry points are known.
    pub fn declared_count(&self) -> (r: usize)
        ensures
            r == self.found@.len(),
    {
        self.found.len()
    }

    /// The places of the entry points that the library does not export.
    pub fn missing_entry_points(&self) -> (r: Vec<usize>)
        ensures
            r@ == missing_among(self.found@, self.found@.len()),
    {
        let total: usize = self.found.len();
        let mut missing: Vec<usize> = Vec::new();
        let mut i: usize = 0;
        while i < total
            invariant
                i <= total,
                total == self.found@.len(),
                missing@ == missing_among(self.found@, i as nat),
            decreases total - i,
        {
            if !self.found[i] {
                missing.push(i);
            }
            i = i + 1;
        }
        missing
    }

    /// Every entry point is found or missing, and none is both.
    pub proof fn lemma_counts_add_up(&self)
        ensures
            found_among(self.found@, self.found@.len()) + missing_among(
                self.found@,
                self.found@.len(),
            ).len() == self.found@.len(),
    {
        lemma_counts(self.found@, self.found@.len());
    }
}

proof fn lemma_counts(found: Seq<bool>, n: nat)
    requires
        n <= found.len(),
    ensures
        found_among(found, n) + missing_among(found, n).len() == n,
    decreases n,
{
    if n > 0 {
        lemma_counts(found, (n - 1) as nat);
    }
}

/// A library that lacks either of these two is something else, and is declined.
pub fn isCairo(has_create: bool, has_image_surface_create: bool) -> (r: bool)
    ensures
        r == (has_create && has_image_surface_create),
{
    has_create && has_image_surface_create
}

} // verus!
