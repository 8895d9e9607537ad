//! Reading a single pixel of a form.
use vstd::prelude::*;
use crate::prim::{currentFailure, sqInt, PrimErr, PrimResult, UsqInt};
use crate::bitblt::memory::{long32At, word_at, Memory};
use crate::bitblt::state::{shr32, shr_word};
use crate::bitblt::pixmap::lemma_place;

verus! {

/// Words in a row of a form.
pub open spec fn form_stride(width: int, depth: int) -> int {
    (width + (32int / depth - 1)) / (32int / depth)
}

/// The pixel at column `x`, row `y` of a form whose leftmost pixels are in the
/// high bits.
pub open spec fn form_pixel(
    m: Seq<u8>,
    address: int,
    width: int,
    depth: int,
    x: sqInt,
    y: int,
) -> u32 {
    let per_word = 32int / depth;
    let word = word_at(m, address + 4 * (y * form_stride(width, depth) + x as int / per_word));
    let place = (x & (per_word - 1) as sqInt) as int;
    shr_word(word, 32 - (place + 1) * depth) & shr_word(0xFFFF_FFFF, 32 - depth)
}

/// What reading a pixel of a form answers: 0 outside the form, a failure where
/// the form cannot be as it says.
pub open spec fn pixel_value(
    m: Seq<u8>,
    address: int,
    size: int,
    width: int,
    height: int,
    depth: int,
    x: sqInt,
    y: int,
) -> PrimResult<u32> {
    if x < 0 || y < 0 || x >= width || y >= height {
        Ok(0)
    } else if !(1 <= depth <= 32) || size < form_stride(width, depth) * height * 4 {
        Err(PrimErr::GenericFailure)
    } else {
        Ok(form_pixel(m, address, width, depth, x, y))
    }
}

/// The pixel at column `xVal`, row `yVal` of a form with `bitsSize` bytes.
pub fn pixelValueAt(
    mem: &Memory,
    address: UsqInt,
    bitsSize: sqInt,
    width: sqInt,
    height: sqInt,
    depth: sqInt,
    xVal: sqInt,
    yVal: sqInt,
) -> (r: PrimResult<u32>)
    requires
        0 <= bitsSize,
        address + bitsSize <= mem@.len(),
        width <= sqInt::MAX - 31,
        1 <= depth <= 32 && 0 <= width && 0 <= height ==> form_stride(width as int, depth as int)
            * height * 4 <= sqInt::MAX,
    ensures
        r == pixel_value(
            mem@,
            address as int,
            bitsSize as int,
            width as int,
            height as int,
            depth as int,
            xVal,
            yVal as int,
        ),
{
    if xVal < 0 || yVal < 0 {
        return Ok(0);
    }
    if xVal >= width || yVal >= height {
        return Ok(0);
    }
    if depth <= 0 || depth > 32 {
        return Err(PrimErr::GenericFailure);
    }
    proof {
        assert(1 <= 32int / depth as int <= 32 && (32int / depth as int) * depth <= 32)
            by (nonlinear_arith)
            requires
                1 <= depth <= 32,
        ;
    }
    let ppW: sqInt = 32 / depth;
    let stride: sqInt = (width + (ppW - 1)) / ppW;
    let ghost s = form_stride(width as int, depth as int);
    proof {
        lemma_in_form(width as int, height as int, ppW as int, xVal as int, yVal as int);
        lemma_place(xVal, (ppW - 1) as sqInt);
        mem.lemma_size();
    }
    if bitsSize < stride * height * 4 {
        return Err(PrimErr::GenericFailure);
    }
    let word: u32 = long32At(mem, address + ((yVal * stride + xVal / ppW) * 4) as UsqInt);
    let place: sqInt = xVal & (ppW - 1);
    proof {
        let q = place as int;
        assert(0 <= (q + 1) * depth <= 32) by (nonlinear_arith)
            requires
                0 <= q < ppW,
                ppW * depth <= 32,
                1 <= depth,
        ;
    }
    let shift: sqInt = 32 - (place + 1) * depth;
    Ok(shr32(word, shift) & shr32(0xFFFF_FFFF, 32 - depth))
}

/// Why comparing two colors fails. The test itself is not provided, so it fails
/// on proper arguments too.
pub fn compareColors(
    firstIsColor: bool,
    secondIsColor: bool,
    testIsInteger: bool,
    failureCode: sqInt,
) -> (r: PrimErr)
    ensures
        !(firstIsColor && secondIsColor && testIsInteger) ==> r == PrimErr::BadArgument,
        firstIsColor && secondIsColor && testIsInteger && !(1 <= failureCode <= 24) ==> r
            == PrimErr::GenericFailure,
        firstIsColor && secondIsColor && testIsInteger && 1 <= failureCode <= 24 ==> r.number()
            == failureCode,
{
    if !(firstIsColor && secondIsColor && testIsInteger) {
        return PrimErr::BadArgument;
    }
    if failureCode != 0 {
        return currentFailure(failureCode);
    }
    PrimErr::GenericFailure
}

/// The word of a pixel of the form is one of its rows' words.
proof fn lemma_in_form(width: int, height: int, per_word: int, x: int, y: int)
    requires
        0 <= x < width,
        0 <= y < height,
        1 <= per_word,
    ensures
        ({
            let stride = (width + (per_word - 1)) / per_word;
            &&& 1 <= stride
            &&& 0 <= x / per_word < stride
            &&& 0 <= y * stride
            &&& y * stride + x / per_word < stride * height
            &&& 0 <= stride * height
        }),
{
    let stride = (width + (per_word - 1)) / per_word;
    let c = x / per_word;
    assert(0 <= c && c * per_word <= x && stride * per_word >= width) by (nonlinear_arith)
        requires
            0 <= x < width,
            1 <= per_word,
            stride == (width + (per_word - 1)) / per_word,
            c == x / per_word,
    ;
    assert(c < stride) by (nonlinear_arith)
        requires
            c * per_word <= x,
            x < width,
            stride * per_word >= width,
            1 <= per_word,
    ;
    assert(0 <= y * stride && y * stride + stride <= stride * height) by (nonlinear_arith)
        requires
            0 <= y < height,
            1 <= stride,
    ;
}

} // verus!
