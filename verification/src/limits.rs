//! Structural size validation; there are no application pixel quotas.
use vstd::prelude::*;

verus! {

/// Bytes held per pixel by a floating-point RGBA working buffer.
pub const RGBA_F32_BYTES: usize = 16;

/// The pixel count of a `width` × `height` canvas, when that canvas is
/// non-empty and its floating-point RGBA buffer fits in `isize::MAX` bytes.
pub open spec fn canvas_fits(width: int, height: int) -> bool {
    &&& width > 0
    &&& height > 0
    &&& width * height * 16 <= isize::MAX
}

/// The refusal of a `width` × `height` canvas, if it is refused.
pub open spec fn canvas_pixels_error(width: int, height: int) -> Option<Seq<char>> {
    if width * height > usize::MAX {
        Some("Image dimensions overflow"@)
    } else if !canvas_fits(width, height) {
        Some("Image dimensions are zero or cannot be represented in memory."@)
    } else {
        None
    }
}

/// Validate canvas dimensions and return the pixel count.
pub fn canvas_pixels(width: usize, height: usize) -> (res: Result<usize, String>)
    ensures
        match (res, canvas_pixels_error(width as int, height as int)) {
            (Ok(n), None) => n == width * height,
            (Err(msg), Some(m)) => msg@ == m,
            _ => false,
        },
{
    let pixels = match width.checked_mul(height) {
        Some(p) => p,
        None => {
            proof {
                if width > 0 && height > 0 && width * height * 16 <= isize::MAX {
                    assert(width * height <= width * height * 16) by (nonlinear_arith)
                        requires width > 0, height > 0;
                }
            }
            return Err(String::from_str("Image dimensions overflow"));
        },
    };
    let fits = match pixels.checked_mul(RGBA_F32_BYTES) {
        Some(bytes) => bytes <= isize::MAX as usize,
        None => false,
    };
    if width == 0 || height == 0 || !fits {
        return Err(String::from_str("Image dimensions are zero or cannot be represented in memory."));
    }
    Ok(pixels)
}

} // verus!
