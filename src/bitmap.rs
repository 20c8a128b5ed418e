use vstd::prelude::*;

use crate::scan::cell_at;

verus! {

/// Why a raster could not be read as a bilevel image.
#[derive(Clone, Copy, Debug, PartialEq, Eq, Structural)]
pub enum ImageError {
    /// `width * height` does not fit in memory.
    TooLarge { width: u32, height: u32 },
    /// The number of pixel values differs from `width * height`.
    PixelCount { expected: usize, found: usize },
    /// The bytes do not split into `pixels` equal runs of at least one byte.
    ByteCount { pixels: usize, bytes: usize },
}

/// A bilevel raster: `width * height` pixels in row-major order, `true` where
/// the pixel is opaque.
#[derive(Clone, Debug)]
pub struct Bitmap {
    width: u32,
    height: u32,
    pixels: Vec<bool>,
}

impl Bitmap {
    pub closed spec fn spec_width(&self) -> nat {
        self.width as nat
    }

    pub closed spec fn spec_height(&self) -> nat {
        self.height as nat
    }

    /// Both sides of a raster fit in a `u32`.
    pub proof fn lemma_sides_bounded(&self)
        ensures
            self.spec_width() <= u32::MAX,
            self.spec_height() <= u32::MAX,
    {
    }

    pub closed spec fn cells(&self) -> Seq<bool> {
        self.pixels@
    }

    pub closed spec fn wf(&self) -> bool {
        self.pixels@.len() == self.width as int * self.height as int
    }

    /// Whether the pixel at column `c`, row `r` is opaque; positions outside
    /// the raster are transparent.
    pub open spec fn opaque(&self, c: int, r: int) -> bool {
        0 <= c < self.spec_width() && 0 <= r < self.spec_height()
            && self.cells()[r * self.spec_width() + c]
    }
}

/// Whether the `i`-th run of `step` bytes holds a non-zero byte.
pub open spec fn run_nonzero(data: Seq<u8>, i: int, step: int) -> bool {
    exists|j: int| 0 <= j < step && #[trigger] data[i * step + j] != 0
}

/// The number of bytes per pixel when `bytes` bytes describe `pixels` pixels,
/// or `None` where they do not split evenly.
pub open spec fn bytes_per_pixel(pixels: int, bytes: int) -> Option<int> {
    if pixels == 0 {
        if bytes == 0 { Some(1) } else { None }
    } else if bytes >= pixels && bytes % pixels == 0 {
        Some(bytes / pixels)
    } else {
        None
    }
}

impl Bitmap {
    /// A raster from its row-major pixel values.
    pub fn new(width: u32, height: u32, pixels: Vec<bool>) -> (r: Result<Bitmap, ImageError>)
        ensures
            (width as int * height as int > usize::MAX) ==> r == Err::<Bitmap, ImageError>(
                ImageError::TooLarge { width, height },
            ),
            (width as int * height as int <= usize::MAX && pixels@.len() != width as int
                * height as int) ==> r == Err::<Bitmap, ImageError>(
                ImageError::PixelCount {
                    expected: (width as int * height as int) as usize,
                    found: pixels@.len() as usize,
                },
            ),
            (pixels@.len() == width as int * height as int) <==> r is Ok,
            r matches Ok(b) ==> b.wf() && b.spec_width() == width && b.spec_height() == height
                && b.cells() == pixels@,
    {
        let found = pixels.len();
        let expected = match (width as usize).checked_mul(height as usize) {
            None => {
                return Err(ImageError::TooLarge { width, height });
            },
            Some(n) => n,
        };
        if found != expected {
            return Err(ImageError::PixelCount { expected, found });
        }
        Ok(Bitmap { width, height, pixels })
    }

    /// A raster from raw channel bytes: every pixel owns an equal run of
    /// bytes, and is opaque when any byte of its run is non-zero.
    pub fn from_bytes(width: u32, height: u32, data: &[u8]) -> (r: Result<Bitmap, ImageError>)
        ensures
            (width as int * height as int > usize::MAX) ==> r == Err::<Bitmap, ImageError>(
                ImageError::TooLarge { width, height },
            ),
            (width as int * height as int <= usize::MAX && bytes_per_pixel(
                width as int * height as int,
                data@.len() as int,
            ) is None) ==> r == Err::<Bitmap, ImageError>(
                ImageError::ByteCount {
                    pixels: (width as int * height as int) as usize,
                    bytes: data@.len() as usize,
                },
            ),
            r is Ok <==> (width as int * height as int <= usize::MAX && bytes_per_pixel(
                width as int * height as int,
                data@.len() as int,
            ) is Some),
            r matches Ok(b) ==> {
                &&& b.wf()
                &&& b.spec_width() == width
                &&& b.spec_height() == height
                &&& b.cells().len() == width as int * height as int
                &&& forall|i: int|
                    0 <= i < b.cells().len() ==> #[trigger] b.cells()[i] == run_nonzero(
                        data@,
                        i,
                        bytes_per_pixel(width as int * height as int, data@.len() as int)->0,
                    )
            },
    {
        let n = match (width as usize).checked_mul(height as usize) {
            None => {
                return Err(ImageError::TooLarge { width, height });
            },
            Some(n) => n,
        };
        let len = data.len();
        if n == 0 {
            if len != 0 {
                return Err(ImageError::ByteCount { pixels: n, bytes: len });
            }
            let pixels: Vec<bool> = Vec::new();
            return Ok(Bitmap { width, height, pixels });
        }
        if len < n || len % n != 0 {
            return Err(ImageError::ByteCount { pixels: n, bytes: len });
        }
        let step = len / n;
        let mut pixels: Vec<bool> = Vec::new();
        let mut i: usize = 0;
        while i < n
            invariant
                0 <= i <= n,
                n > 0,
                step == len as int / n as int,
                len == data@.len(),
                len as int % n as int == 0,
                pixels@.len() == i,
                forall|k: int| 0 <= k < i ==> #[trigger] pixels@[k] == run_nonzero(data@, k, step as int),
            decreases n - i,
        {
            proof {
                assert(i * step + step <= len) by (nonlinear_arith)
                    requires i < n, step == len as int / n as int, len as int % n as int == 0, n > 0;
            }
            let base = i * step;
            let mut any = false;
            let mut j: usize = 0;
            while j < step
                invariant
                    0 <= j <= step,
                    base == i * step,
                    base + step <= len,
                    len == data@.len(),
                    any == exists|t: int| 0 <= t < j && #[trigger] data@[i * step + t] != 0,
                decreases step - j,
            {
                if data[base + j] != 0 {
                    any = true;
                }
                j += 1;
            }
            pixels.push(any);
            i += 1;
        }
        Ok(Bitmap { width, height, pixels })
    }

    /// A raster from a `rows` by `cols` grid stored row-major in `data`:
    /// a pixel is opaque where its cell is set (see `cell_at`).
    pub fn from_grid(data: &[usize], rows: usize, cols: usize) -> (b: Bitmap)
        requires
            rows <= u32::MAX,
            cols <= u32::MAX,
            rows * cols <= usize::MAX,
        ensures
            b.wf(),
            b.spec_width() == cols,
            b.spec_height() == rows,
            forall|c: int, r: int|
                0 <= c < cols && 0 <= r < rows ==> #[trigger] b.opaque(c, r) == (cell_at(
                    r,
                    c,
                    rows as int,
                    cols as int,
                    data@,
                ) == 1),
    {
        let len = data.len();
        let mut pixels: Vec<bool> = Vec::new();
        let mut r: usize = 0;
        while r < rows
            invariant
                r <= rows,
                rows * cols <= usize::MAX,
                len == data@.len(),
                pixels@.len() == r * cols,
                forall|k: int|
                    0 <= k < pixels@.len() ==> #[trigger] pixels@[k] == (cell_at(
                        k / cols as int,
                        k % cols as int,
                        rows as int,
                        cols as int,
                        data@,
                    ) == 1),
            decreases rows - r,
        {
            let mut c: usize = 0;
            while c < cols
                invariant
                    r < rows,
                    c <= cols,
                    rows * cols <= usize::MAX,
                    len == data@.len(),
                    pixels@.len() == r * cols + c,
                    forall|k: int|
                        0 <= k < pixels@.len() ==> #[trigger] pixels@[k] == (cell_at(
                            k / cols as int,
                            k % cols as int,
                            rows as int,
                            cols as int,
                            data@,
                        ) == 1),
                decreases cols - c,
            {
                proof {
                    assert(r * cols + c < rows * cols) by (nonlinear_arith)
                        requires r < rows, c < cols;
                    vstd::arithmetic::div_mod::lemma_fundamental_div_mod_converse(
                        (r * cols + c) as int,
                        cols as int,
                        r as int,
                        c as int,
                    );
                }
                let idx = r * cols + c;
                pixels.push(idx < len && data[idx] != 0);
                c += 1;
            }
            proof {
                assert(r * cols + cols == (r + 1) * cols) by (nonlinear_arith);
            }
            r += 1;
        }
        assert(pixels@.len() == cols * rows) by (nonlinear_arith)
            requires pixels@.len() == r * cols, r == rows;
        let b = Bitmap { width: cols as u32, height: rows as u32, pixels };
        assert(b.wf());
        proof {
            assert forall|c: int, r: int| 0 <= c < cols && 0 <= r < rows implies #[trigger] b.opaque(
                c,
                r,
            ) == (cell_at(r, c, rows as int, cols as int, data@) == 1) by {
                assert(r * cols + c < rows * cols) by (nonlinear_arith)
                    requires r < rows, c < cols, 0 <= c, 0 <= r;
                vstd::arithmetic::div_mod::lemma_fundamental_div_mod_converse(
                    r * cols + c,
                    cols as int,
                    r,
                    c,
                );
                assert(b.cells()[r * cols + c] == pixels@[r * cols + c]);
            }
        }
        b
    }

    pub fn width(&self) -> (r: u32)
        ensures
            r == self.spec_width(),
    {
        self.width
    }

    pub fn height(&self) -> (r: u32)
        ensures
            r == self.spec_height(),
    {
        self.height
    }

    /// Whether the pixel at column `c`, row `r` is opaque.
    pub fn is_opaque(&self, c: u32, r: u32) -> (o: bool)
        requires
            self.wf(),
        ensures
            o == self.opaque(c as int, r as int),
    {
        let len = self.pixels.len();
        if c < self.width && r < self.height {
            proof {
                assert(r * self.width + c < len) by (nonlinear_arith)
                    requires c < self.width, r < self.height, len == self.width * self.height;
            }
            self.pixels[r as usize * self.width as usize + c as usize]
        } else {
            false
        }
    }
}

} // verus!
