//! Image surfaces: how much memory they need, and how their rows are packed.
use vstd::prelude::*;
use crate::prim::{sqInt, PrimErr, PrimResult};
use crate::cairo::checks::{as_c_int, as_c_int_positive};
use crate::cairo::ffi::{format_bytes_per_pixel, is_valid_format};

verus! {

/// A format that is handed on and sizes that are not negative.
pub open spec fn surface_args(format: int, width: int, height: int) -> PrimResult<(i32, i32, i32)> {
    if crate::cairo::ffi::valid_format(format) && 0 <= width <= i32::MAX && 0 <= height
        <= i32::MAX {
        Ok((format as i32, width as i32, height as i32))
    } else {
        Err(PrimErr::BadArgument)
    }
}

/// The format and the size of a surface that is to be made.
pub fn imageSurfaceArgs(format: sqInt, width: sqInt, height: sqInt) -> (r: PrimResult<
    (i32, i32, i32),
>)
    ensures
        r == surface_args(format as int, width as int, height as int),
{
    let f: i32 = as_c_int(format)?;
    if !is_valid_format(f) {
        return Err(PrimErr::BadArgument);
    }
    let w: i32 = as_c_int_positive(width)?;
    let h: i32 = as_c_int_positive(height)?;
    Ok((f, w, h))
}

/// The bytes that a surface over an object of the image needs: `stride` for each
/// row. The stride must not be below the least that the library takes, and a
/// negative least means that there is none.
pub fn bitmapBytes(height: i32, stride: i32, minimum_stride: i32) -> (r: PrimResult<usize>)
    requires
        0 <= height,
        0 <= stride,
    ensures
        r == (if minimum_stride < 0 || stride < minimum_stride || stride * height > usize::MAX {
            Err(PrimErr::BadArgument)
        } else {
            Ok((stride * height) as usize)
        }),
{
    if minimum_stride < 0 || stride < minimum_stride {
        return Err(PrimErr::BadArgument);
    }
    match (stride as usize).checked_mul(height as usize) {
        Some(needed) => Ok(needed),
        None => Err(PrimErr::BadArgument),
    }
}

/// An object has to have as many bytes as are needed.
pub fn expectRoom(available: usize, needed: usize) -> (r: PrimResult<()>)
    ensures
        r == (if available < needed {
            Err(PrimErr::BadIndex)
        } else {
            Ok(())
        }),
{
    if available < needed {
        return Err(PrimErr::BadIndex);
    }
    Ok(())
}

/// The rows of a surface: `row` bytes of pixels in every `stride` bytes.
#[derive(Debug, Clone, Copy, PartialEq, Eq, Structural)]
pub struct Rows {
    pub stride: usize,
    pub row: usize,
    pub height: usize,
}

/// The rows of a surface, as it describes itself.
pub open spec fn rows_of(
    format: int,
    has_data: bool,
    stride: int,
    width: int,
    height: int,
) -> PrimResult<Rows> {
    match crate::cairo::ffi::bytes_per_pixel(format) {
        None => Err(PrimErr::Unsupported),
        Some(bpp) => if !has_data {
            Err(PrimErr::Inappropriate)
        } else if stride < 0 || width < 0 || height < 0 {
            Err(PrimErr::OperationFailed)
        } else if width * bpp > usize::MAX || width * bpp * height > usize::MAX {
            Err(PrimErr::LimitExceeded)
        } else {
            Ok(
                Rows {
                    stride: stride as usize,
                    row: (width * bpp) as usize,
                    height: height as usize,
                },
            )
        },
    }
}

/// The rows of a surface, as it describes itself: a format with whole bytes, and
/// pixels to read.
pub fn imageRows(format: i32, has_data: bool, stride: i32, width: i32, height: i32) -> (r: PrimResult<
    Rows,
>)
    ensures
        r == rows_of(format as int, has_data, stride as int, width as int, height as int),
        r matches Ok(rows) ==> rows.row * rows.height <= usize::MAX,
{
    let bpp: usize = match format_bytes_per_pixel(format) {
        None => {
            return Err(PrimErr::Unsupported);
        },
        Some(n) => n,
    };
    if !has_data {
        return Err(PrimErr::Inappropriate);
    }
    if stride < 0 || width < 0 || height < 0 {
        return Err(PrimErr::OperationFailed);
    }
    let row: usize = match (width as usize).checked_mul(bpp) {
        None => {
            return Err(PrimErr::LimitExceeded);
        },
        Some(n) => n,
    };
    match row.checked_mul(height as usize) {
        None => Err(PrimErr::LimitExceeded),
        Some(_) => Ok(Rows { stride: stride as usize, row, height: height as usize }),
    }
}

impl Rows {
    /// The packed rows fit into memory, and a row into its stride.
    pub open spec fn inv(self) -> bool {
        &&& self.row * self.height <= usize::MAX
        &&& self.row <= self.stride
    }

    /// The bytes of all rows without the gaps.
    pub open spec fn packed_len(self) -> int {
        self.row * self.height
    }

    /// Whether a surface's memory holds all rows.
    pub open spec fn within(self, len: int) -> bool {
        self.stride * self.height <= len
    }

    /// Where byte `k` of the packed rows stands in the surface.
    pub open spec fn place(self, k: int) -> int {
        (k / self.row as int) * self.stride + k % (self.row as int)
    }

    /// Whether a byte of the surface belongs to a pixel.
    pub open spec fn is_pixel(self, at: int) -> bool {
        &&& 0 <= at < self.stride * self.height
        &&& at % (self.stride as int) < self.row
    }

    /// Which byte of the packed rows a byte of the surface is.
    pub open spec fn packed_place(self, at: int) -> int {
        (at / self.stride as int) * self.row + at % (self.stride as int)
    }

    /// The packed rows of a surface.
    pub open spec fn packed(self, surface: Seq<u8>) -> Seq<u8> {
        Seq::new(self.packed_len() as nat, |k: int| surface[self.place(k)])
    }

    /// A surface with these packed rows in it; the gaps stay.
    pub open spec fn unpacked(self, surface: Seq<u8>, packed: Seq<u8>) -> Seq<u8> {
        Seq::new(
            surface.len(),
            |at: int|
                if self.is_pixel(at) {
                    packed[self.packed_place(at)]
                } else {
                    surface[at]
                },
        )
    }

    /// The bytes of all rows without the gaps.
    pub fn needed(&self) -> (r: usize)
        requires
            self.row * self.height <= usize::MAX,
        ensures
            r == self.packed_len(),
    {
        self.row * self.height
    }

    /// Copies a surface's pixels out, packed.
    pub fn pack(&self, surface: &[u8]) -> (r: Vec<u8>)
        requires
            self.inv(),
            self.within(surface@.len() as int),
        ensures
            r@ == self.packed(surface@),
    {
        let total: usize = surface.len();
        let mut out: Vec<u8> = Vec::new();
        let mut y: usize = 0;
        while y < self.height
            invariant
                self.inv(),
                total == surface@.len(),
                self.within(total as int),
                0 <= y <= self.height,
                out@ == self.packed(surface@).take(y * self.row),
            decreases self.height - y,
        {
            proof {
                lemma_row_room(*self, y as int, total as int);
            }
            let start: usize = y * self.stride;
            let mut x: usize = 0;
            while x < self.row
                invariant
                    self.inv(),
                    total == surface@.len(),
                    y < self.height,
                    x <= self.row,
                    start == y * self.stride,
                    start + self.row <= total,
                    y * self.row + self.row <= self.packed_len(),
                    0 <= y * self.row,
                    out@ == self.packed(surface@).take(y * self.row + x),
                decreases self.row - x,
            {
                out.push(surface[start + x]);
                proof {
                    lemma_place(*self, y as int, x as int);
                    assert(self.packed(surface@)[y * self.row + x] == surface@[start + x]);
                    assert(out@ =~= self.packed(surface@).take(y * self.row + (x + 1)));
                }
                x = x + 1;
            }
            assert(y * self.row + self.row == (y + 1) * self.row) by (nonlinear_arith);
            y = y + 1;
        }
        assert(self.packed(surface@).take(self.packed_len()) =~= self.packed(surface@)) by {
            assert(self.height * self.row == self.row * self.height) by (nonlinear_arith);
        }
        assert(y * self.row == self.packed_len()) by (nonlinear_arith)
            requires
                y == self.height,
                self.packed_len() == self.row * self.height,
        ;
        out
    }

    /// Copies packed pixels into a surface. The gaps stay.
    pub fn unpack(&self, surface: &mut Vec<u8>, packed: &[u8])
        requires
            self.inv(),
            self.within(old(surface)@.len() as int),
            self.packed_len() <= packed@.len(),
        ensures
            final(surface)@ == self.unpacked(old(surface)@, packed@),
    {
        let total: usize = surface.len();
        let ghost before = surface@;
        let mut y: usize = 0;
        proof {
            assert forall|at: int| 0 <= at < before.len() implies !(self.is_pixel(at) && at
                < 0 * self.stride) by {}
        }
        while y < self.height
            invariant
                self.inv(),
                total == before.len(),
                surface@.len() == total,
                self.within(total as int),
                self.packed_len() <= packed@.len(),
                0 <= y <= self.height,
                forall|at: int|
                    0 <= at < total ==> #[trigger] surface@[at] == (if self.is_pixel(at) && at < y
                        * self.stride {
                        packed@[self.packed_place(at)]
                    } else {
                        before[at]
                    }),
            decreases self.height - y,
        {
            proof {
                lemma_row_room(*self, y as int, total as int);
            }
            let start: usize = y * self.stride;
            let from: usize = y * self.row;
            let mut x: usize = 0;
            while x < self.row
                invariant
                    self.inv(),
                    total == before.len(),
                    surface@.len() == total,
                    y < self.height,
                    x <= self.row,
                    start == y * self.stride,
                    from == y * self.row,
                    start + self.stride <= self.stride * self.height,
                    self.stride * self.height <= total,
                    from + self.row <= self.packed_len(),
                    self.packed_len() <= packed@.len(),
                    forall|at: int|
                        0 <= at < total ==> #[trigger] surface@[at] == (if self.is_pixel(at) && at
                            < start + x {
                            packed@[self.packed_place(at)]
                        } else {
                            before[at]
                        }),
                decreases self.row - x,
            {
                let ghost was = surface@;
                surface.set(start + x, packed[from + x]);
                proof {
                    lemma_pixel(*self, y as int, x as int);
                    assert forall|at: int| 0 <= at < total implies #[trigger] surface@[at] == (
                    if self.is_pixel(at) && at < start + (x + 1) {
                        packed@[self.packed_place(at)]
                    } else {
                        before[at]
                    }) by {
                        if at != start + x {
                            assert(surface@[at] == was[at]);
                        }
                    }
                }
                x = x + 1;
            }
            proof {
                assert forall|at: int| 0 <= at < total implies #[trigger] surface@[at] == (
                if self.is_pixel(at) && at < (y + 1) * self.stride {
                    packed@[self.packed_place(at)]
                } else {
                    before[at]
                }) by {
                    assert((y + 1) * self.stride == start + self.stride) by (nonlinear_arith)
                        requires
                            start == y * self.stride,
                    ;
                    if start + self.row <= at < start + self.stride {
                        lemma_gap(*self, y as int, at - start);
                    }
                }
            }
            y = y + 1;
        }
        assert(self.height * self.stride == self.stride * self.height) by (nonlinear_arith);
        assert(surface@ =~= self.unpacked(before, packed@));
    }
}

/// A row lies inside the surface, and its packed bytes inside the packed rows.
proof fn lemma_row_room(rows: Rows, y: int, total: int)
    requires
        rows.inv(),
        rows.within(total),
        0 <= y < rows.height,
    ensures
        0 <= y * rows.stride,
        y * rows.stride + rows.stride <= rows.stride * rows.height,
        y * rows.stride + rows.row <= total,
        0 <= y * rows.row,
        y * rows.row + rows.row <= rows.packed_len(),
{
    let stride = rows.stride as int;
    let row = rows.row as int;
    let height = rows.height as int;
    assert(0 <= y * stride && y * stride + stride <= stride * height) by (nonlinear_arith)
        requires
            0 <= y < height,
            0 <= stride,
    ;
    assert(0 <= y * row && y * row + row <= row * height) by (nonlinear_arith)
        requires
            0 <= y < height,
            0 <= row,
    ;
}

/// A number in parts: the quotient and the remainder of what they make up.
proof fn lemma_parts(size: int, y: int, x: int)
    requires
        0 <= x < size,
        0 <= y,
    ensures
        (y * size + x) / size == y,
        (y * size + x) % size == x,
        0 <= y * size,
{
    assert(0 <= y * size) by (nonlinear_arith)
        requires
            0 <= y,
            0 < size,
    ;
    vstd::arithmetic::div_mod::lemma_fundamental_div_mod_converse(y * size + x, size, y, x);
}

proof fn lemma_place(rows: Rows, y: int, x: int)
    requires
        0 <= y,
        0 <= x < rows.row,
    ensures
        rows.place(y * rows.row + x) == y * rows.stride + x,
{
    lemma_parts(rows.row as int, y, x);
}

proof fn lemma_pixel(rows: Rows, y: int, x: int)
    requires
        rows.inv(),
        0 <= y < rows.height,
        0 <= x < rows.row,
    ensures
        rows.is_pixel(y * rows.stride + x),
        rows.packed_place(y * rows.stride + x) == y * rows.row + x,
{
    lemma_parts(rows.stride as int, y, x);
    lemma_row_room(rows, y, rows.stride * rows.height);
}

proof fn lemma_gap(rows: Rows, y: int, x: int)
    requires
        0 <= y,
        rows.row <= x < rows.stride,
    ensures
        !rows.is_pixel(y * rows.stride + x),
{
    lemma_parts(rows.stride as int, y, x);
}

/// What was written into a surface is read back from it.
pub proof fn lemma_read_after_write(rows: Rows, surface: Seq<u8>, packed: Seq<u8>)
    requires
        rows.inv(),
        rows.within(surface.len() as int),
        packed.len() == rows.packed_len(),
    ensures
        rows.packed(rows.unpacked(surface, packed)) == packed,
{
    let after = rows.unpacked(surface, packed);
    assert forall|k: int| 0 <= k < packed.len() implies #[trigger] rows.packed(after)[k]
        == packed[k] by {
        lemma_split(rows, k);
        let y = k / rows.row as int;
        let x = k % (rows.row as int);
        lemma_pixel(rows, y, x);
        lemma_row_room(rows, y, surface.len() as int);
    }
    assert(rows.packed(after) =~= packed);
}

/// Writing back what was read leaves a surface as it was.
pub proof fn lemma_write_after_read(rows: Rows, surface: Seq<u8>)
    requires
        rows.inv(),
        rows.within(surface.len() as int),
    ensures
        rows.unpacked(surface, rows.packed(surface)) == surface,
{
    let packed = rows.packed(surface);
    assert forall|at: int| 0 <= at < surface.len() && rows.is_pixel(at) implies #[trigger] packed[rows.packed_place(
        at,
    )] == surface[at] by {
        let stride = rows.stride as int;
        let y = at / stride;
        let x = at % stride;
        vstd::arithmetic::div_mod::lemma_fundamental_div_mod(at, stride);
        assert(stride * y == y * stride) by (nonlinear_arith);
        assert(0 <= y < rows.height) by (nonlinear_arith)
            requires
                at == y * stride + x,
                0 <= x < stride,
                0 <= at < stride * rows.height,
        ;
        lemma_row_room(rows, y, surface.len() as int);
        lemma_place(rows, y, x);
    }
    assert(rows.unpacked(surface, packed) =~= surface);
}

/// A byte of the packed rows stands in one of the rows.
proof fn lemma_split(rows: Rows, k: int)
    requires
        0 <= k < rows.packed_len(),
    ensures
        0 <= k / (rows.row as int) < rows.height,
        0 <= k % (rows.row as int) < rows.row,
        k == (k / (rows.row as int)) * rows.row + k % (rows.row as int),
{
    let row = rows.row as int;
    assert(row > 0) by (nonlinear_arith)
        requires
            0 <= row,
            0 < row * rows.height,
    ;
    vstd::arithmetic::div_mod::lemma_fundamental_div_mod(k, row);
    let y = k / row;
    let x = k % row;
    assert(row * y == y * row) by (nonlinear_arith);
    assert(0 <= y < rows.height) by (nonlinear_arith)
        requires
            k == y * row + x,
            0 <= x < row,
            0 <= k < row * rows.height,
    ;
}

} // verus!
