//! What is checked of arguments before a call is made.
use vstd::prelude::*;
use crate::prim::{sqInt, PrimErr, PrimResult};

verus! {

/// An integer of the image as one of 32 bits.
pub open spec fn c_int(value: int) -> PrimResult<i32> {
    if i32::MIN <= value <= i32::MAX {
        Ok(value as i32)
    } else {
        Err(PrimErr::BadArgument)
    }
}

/// Narrows an integer of the image to the 32 bits that the library takes.
pub fn as_c_int(value: sqInt) -> (r: PrimResult<i32>)
    ensures
        r == c_int(value as int),
{
    if (i32::MIN as sqInt) <= value && value <= (i32::MAX as sqInt) {
        Ok(value as i32)
    } else {
        Err(PrimErr::BadArgument)
    }
}

/// The value between 0 and a limit, as one of 32 bits.
pub open spec fn enumerated(value: int, max: int) -> PrimResult<i32> {
    if 0 <= value <= max {
        Ok(value as i32)
    } else {
        Err(PrimErr::BadArgument)
    }
}

/// Narrows an integer of the image that must not be negative.
pub fn as_c_int_positive(value: sqInt) -> (r: PrimResult<i32>)
    ensures
        r == enumerated(value as int, i32::MAX as int),
{
    let v: i32 = as_c_int(value)?;
    if v < 0 {
        return Err(PrimErr::BadArgument);
    }
    Ok(v)
}

/// A line ends butt, round or square.
pub const LINE_CAP_MAX: i32 = 2;

/// Lines join in a miter, round or in a bevel.
pub const LINE_JOIN_MAX: i32 = 2;

/// A path is filled by winding or by even and odd.
pub const FILL_RULE_MAX: i32 = 1;

/// Default, none, gray, subpixel, fast, good, best.
pub const ANTIALIAS_MAX: i32 = 6;

/// From clearing to the luminosity of the source.
pub const OPERATOR_MAX: i32 = 28;

/// None, repeat, reflect, pad.
pub const EXTEND_MAX: i32 = 3;

/// Fast, good, best, nearest, bilinear, gaussian.
pub const FILTER_MAX: i32 = 5;

/// Normal, italic, oblique.
pub const SLANT_MAX: i32 = 2;

/// Normal, bold.
pub const WEIGHT_MAX: i32 = 1;

/// A value of an enumeration whose last value is `max`. The library would keep
/// an error on one it does not know, and draw no more.
pub fn enumValue(value: sqInt, max: i32) -> (r: PrimResult<i32>)
    ensures
        r == enumerated(value as int, max as int),
{
    let v: i32 = as_c_int(value)?;
    if 0 <= v && v <= max {
        Ok(v)
    } else {
        Err(PrimErr::BadArgument)
    }
}

/// The slant and the weight of a font.
pub fn fontFace(slant: sqInt, weight: sqInt) -> (r: PrimResult<(i32, i32)>)
    ensures
        r == (if 0 <= slant <= SLANT_MAX && 0 <= weight <= WEIGHT_MAX {
            Ok((slant as i32, weight as i32))
        } else {
            Err(PrimErr::BadArgument)
        }),
{
    let s: i32 = as_c_int(slant)?;
    let w: i32 = as_c_int(weight)?;
    if !(0 <= s && s <= SLANT_MAX) || !(0 <= w && w <= WEIGHT_MAX) {
        return Err(PrimErr::BadArgument);
    }
    Ok((s, w))
}

/// A rectangle of pixels: any place, and a size that is not negative.
pub fn dirtyRectangle(x: sqInt, y: sqInt, width: sqInt, height: sqInt) -> (r: PrimResult<
    (i32, i32, i32, i32),
>)
    ensures
        r == (if c_int(x as int) is Ok && c_int(y as int) is Ok && 0 <= width <= i32::MAX && 0
            <= height <= i32::MAX {
            Ok((x as i32, y as i32, width as i32, height as i32))
        } else {
            Err(PrimErr::BadArgument)
        }),
{
    let left: i32 = as_c_int(x)?;
    let top: i32 = as_c_int(y)?;
    let w: i32 = as_c_int_positive(width)?;
    let h: i32 = as_c_int_positive(height)?;
    Ok((left, top, w, h))
}

/// A text with its terminating zero. One that holds a zero would be cut there,
/// so it is refused.
pub fn cText(text: Vec<u8>) -> (r: PrimResult<Vec<u8>>)
    ensures
        match r {
            Ok(terminated) => !text@.contains(0u8) && terminated@ == text@.push(0u8),
            Err(e) => text@.contains(0u8) && e == PrimErr::BadArgument,
        },
{
    let mut terminated: Vec<u8> = text;
    let total: usize = terminated.len();
    let mut i: usize = 0;
    while i < total
        invariant
            i <= total,
            total == text@.len(),
            terminated@ == text@,
            forall|k: int| 0 <= k < i ==> text@[k] != 0u8,
        decreases total - i,
    {
        if terminated[i] == 0 {
            assert(text@[i as int] == 0u8);
            return Err(PrimErr::BadArgument);
        }
        i = i + 1;
    }
    terminated.push(0);
    Ok(terminated)
}

/// The bytes of a matrix, and of what a text occupies: six numbers.
pub const SIX_NUMBERS: usize = 48;

/// The bytes of what a font occupies: five numbers.
pub const FIVE_NUMBERS: usize = 40;

/// The bytes of a box: two corners.
pub const FOUR_NUMBERS: usize = 32;

/// The bytes of a point.
pub const TWO_NUMBERS: usize = 16;

/// An object that takes results has to have their size.
pub fn expectSize(size: usize, expected: usize) -> (r: PrimResult<()>)
    ensures
        r == (if size == expected {
            Ok(())
        } else {
            Err(PrimErr::BadArgument)
        }),
{
    if size != expected {
        return Err(PrimErr::BadArgument);
    }
    Ok(())
}

/// How many numbers of eight bytes a dash pattern of this size holds, as the
/// library takes the count.
pub fn dashCount(byte_size: usize) -> (r: PrimResult<i32>)
    ensures
        r == (if byte_size % 8 != 0 || byte_size / 8 > i32::MAX {
            Err(PrimErr::BadArgument)
        } else {
            Ok((byte_size / 8) as i32)
        }),
{
    if byte_size % 8 != 0 {
        return Err(PrimErr::BadArgument);
    }
    let count: usize = byte_size / 8;
    if count > i32::MAX as usize {
        return Err(PrimErr::BadArgument);
    }
    Ok(count as i32)
}

} // verus!
