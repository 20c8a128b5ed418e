use vstd::prelude::*;

use crate::bitmap::Bitmap;
use crate::geometry::Pixel;

verus! {

/// Zero or one: whether the cell at `row`, `col` of a `rows` by `cols` grid
/// stored row-major in `data` is set. Cells outside the grid, or beyond the
/// end of `data`, read as zero.
pub open spec fn cell_at(row: int, col: int, rows: int, cols: int, data: Seq<usize>) -> usize {
    if row < 0 || col < 0 || row >= rows || col >= cols {
        0
    } else if row * cols + col < data.len() && data[row * cols + col] != 0 {
        1
    } else {
        0
    }
}

/// Reads one cell of a row-major grid as zero or one (see `cell_at`).
pub fn get_at(row: isize, col: isize, rows: usize, cols: usize, data: &[usize]) -> (r: usize)
    ensures
        r == cell_at(row as int, col as int, rows as int, cols as int, data@),
{
    let len = data.len();
    if row < 0 || col < 0 || row as usize >= rows || col as usize >= cols {
        0
    } else {
        match (row as usize).checked_mul(cols) {
            None => {
                assert(row * cols + col > len) by (nonlinear_arith)
                    requires row * cols > usize::MAX, col >= 0, len <= usize::MAX;
                0
            },
            Some(base) => match base.checked_add(col as usize) {
                None => 0,
                Some(idx) => {
                    if idx < len && data[idx] != 0 {
                        1
                    } else {
                        0
                    }
                },
            },
        }
    }
}

/// One if the pixel at column `c`, row `r` is opaque, else zero.
pub open spec fn bit(b: Bitmap, c: int, r: int) -> int {
    if b.opaque(c, r) { 1 } else { 0 }
}

/// How many of the eight pixels around column `c`, row `r` are opaque.
pub open spec fn opaque_neighbors(b: Bitmap, c: int, r: int) -> int {
    bit(b, c, r + 1) + bit(b, c, r - 1) + bit(b, c + 1, r) + bit(b, c - 1, r)
        + bit(b, c + 1, r + 1) + bit(b, c - 1, r - 1) + bit(b, c - 1, r + 1) + bit(b, c + 1, r - 1)
}

/// An opaque pixel that is not surrounded on all eight sides by opaque pixels.
pub open spec fn is_boundary(b: Bitmap, c: int, r: int) -> bool {
    b.opaque(c, r) && opaque_neighbors(b, c, r) < 8
}

/// The boundary pixels among the first `c` columns of row `r`, left to right.
pub open spec fn row_boundary(b: Bitmap, r: int, c: int) -> Seq<Pixel>
    decreases c,
{
    if c <= 0 {
        Seq::empty()
    } else {
        let rest = row_boundary(b, r, c - 1);
        if is_boundary(b, c - 1, r) {
            rest.push(Pixel { x: (c - 1) as u32, y: r as u32 })
        } else {
            rest
        }
    }
}

/// The boundary pixels of the first `r` rows, in raster order (row by row,
/// each row left to right).
pub open spec fn boundary_upto(b: Bitmap, r: int) -> Seq<Pixel>
    decreases r,
{
    if r <= 0 {
        Seq::empty()
    } else {
        boundary_upto(b, r - 1) + row_boundary(b, r - 1, b.spec_width() as int)
    }
}

/// All boundary pixels of the raster, in raster order.
pub open spec fn boundary_of(b: Bitmap) -> Seq<Pixel> {
    boundary_upto(b, b.spec_height() as int)
}

fn bit_at(b: &Bitmap, c: i64, r: i64) -> (v: u32)
    requires
        b.wf(),
    ensures
        v == bit(*b, c as int, r as int),
{
    if c < 0 || r < 0 || c >= b.width() as i64 || r >= b.height() as i64 {
        0
    } else if b.is_opaque(c as u32, r as u32) {
        1
    } else {
        0
    }
}

/// The opaque pixels of `b` that have a transparent or out-of-bounds pixel
/// among their eight neighbours, in raster order.
pub fn boundary_points(b: &Bitmap) -> (points: Vec<Pixel>)
    requires
        b.wf(),
    ensures
        points@ == boundary_of(*b),
{
    let w = b.width();
    let h = b.height();
    let mut points: Vec<Pixel> = Vec::new();
    let mut r: u32 = 0;
    while r < h
        invariant
            b.wf(),
            w == b.spec_width(),
            h == b.spec_height(),
            r <= h,
            points@ == boundary_upto(*b, r as int),
        decreases h - r,
    {
        let mut c: u32 = 0;
        while c < w
            invariant
                b.wf(),
                w == b.spec_width(),
                r < h,
                c <= w,
                points@ == boundary_upto(*b, r as int) + row_boundary(*b, r as int, c as int),
            decreases w - c,
        {
            if b.is_opaque(c, r) {
                let (ci, ri) = (c as i64, r as i64);
                let n = bit_at(b, ci, ri + 1) + bit_at(b, ci, ri - 1) + bit_at(b, ci + 1, ri)
                    + bit_at(b, ci - 1, ri) + bit_at(b, ci + 1, ri + 1) + bit_at(b, ci - 1, ri - 1)
                    + bit_at(b, ci - 1, ri + 1) + bit_at(b, ci + 1, ri - 1);
                if n < 8 {
                    points.push(Pixel { x: c, y: r });
                }
            }
            proof {
                assert(boundary_upto(*b, r as int) + row_boundary(*b, r as int, c + 1) =~= points@);
            }
            c += 1;
        }
        r += 1;
    }
    points
}

} // verus!
