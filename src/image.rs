//! Where each pixel of the film lies in the row-major image buffer.
//!
//! Pixels are rendered in the order of the buffer, whose first row is the top
//! of the image, while screen rows are counted from the bottom.
use vstd::prelude::*;

verus! {

/// Screen column and row of buffer position `pixel`.
pub open spec fn position_of(pixel: int, width: int, height: int) -> (int, int) {
    (pixel % width, height - 1 - pixel / width)
}

/// Buffer position of the pixel at screen column `x` and row `y`.
pub open spec fn index_of(x: int, y: int, width: int, height: int) -> int {
    (height - y - 1) * width + x
}

/// Screen column and row of the pixel stored at position `pixel` of the
/// buffer: the column is `pixel % width`, and the row is counted from the
/// bottom, so that position 0 is the top-left pixel.
pub fn pixel_position(pixel: u32, width: u32, height: u32) -> (r: (u32, u32))
    requires
        width > 0,
        pixel < width * height,
        width * height <= u32::MAX,
    ensures
        (r.0 as int, r.1 as int) == position_of(pixel as int, width as int, height as int),
        r.0 < width,
        r.1 < height,
{
    proof {
        assert(pixel / width < height) by (nonlinear_arith)
            requires width > 0, pixel < width * height;
    }
    (pixel % width, height - 1 - pixel / width)
}

/// Position in the buffer of the pixel at screen column `x` and row `y`
/// (counted from the bottom), or nothing when it lies off the screen.
pub fn pixel_index(x: u32, y: u32, width: u32, height: u32) -> (r: Option<u32>)
    requires
        width * height <= u32::MAX,
    ensures
        r is Some <==> x < width && y < height,
        r matches Some(i) ==> i == index_of(x as int, y as int, width as int, height as int) && i
            < width * height,
{
    if x < width && y < height {
        proof {
            assert((height - y - 1) * width + x < width * height) by (nonlinear_arith)
                requires x < width, y < height;
        }
        Some((height - y - 1) * width + x)
    } else {
        None
    }
}

/// Each buffer position is the index of the screen pixel that it is rendered
/// as.
pub proof fn lemma_pixel_round_trip(pixel: u32, width: u32, height: u32)
    requires
        width > 0,
        pixel < width * height,
        width * height <= u32::MAX,
    ensures
        ({
            let (x, y) = position_of(pixel as int, width as int, height as int);
            index_of(x, y, width as int, height as int) == pixel
        }),
{
    assert(pixel / width < height) by (nonlinear_arith)
        requires width > 0, pixel < width * height;
    assert((pixel / width) * width + pixel % width == pixel) by (nonlinear_arith)
        requires width > 0;
}

} // verus!
