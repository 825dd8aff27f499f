//! Opening documents: decoding of PSD files into planar samples and layers.
pub mod psd;

use vstd::prelude::*;

verus! {

/// Check that a `width` × `height` image can be held as a drawing.
pub fn check_dimensions(width: usize, height: usize) -> (res: Result<(), String>)
    ensures
        res is Ok <==> crate::limits::canvas_fits(width as int, height as int),
        match (res, crate::limits::canvas_pixels_error(width as int, height as int)) {
            (Err(e), Some(m)) => e@ == m,
            (Ok(_), None) => true,
            _ => false,
        },
{
    match crate::limits::canvas_pixels(width, height) {
        Ok(_) => Ok(()),
        Err(e) => Err(e),
    }
}


/// Whether a lowercase extension names a format that can be opened.
pub open spec fn open_extension(e: Seq<char>) -> bool {
    e == "graphite"@ || e == "psd"@ || e == "png"@ || e == "jpg"@ || e == "jpeg"@ || e == "bmp"@
}

/// Whether a file with extension `extension` can be opened, comparing
/// without ASCII case.
pub fn opens_extension(extension: &str) -> (b: bool)
    ensures
        b == open_extension(crate::export::ascii_lowercase(extension@)),
{
    let e = crate::export::lowercase_chars(extension);
    crate::export::chars_are(&e, "graphite") || crate::export::chars_are(&e, "psd")
        || crate::export::chars_are(&e, "png") || crate::export::chars_are(&e, "jpg")
        || crate::export::chars_are(&e, "jpeg") || crate::export::chars_are(&e, "bmp")
}

/// The last visible layer, or the top layer when none is visible: the layer
/// active after opening.
pub open spec fn last_visible(visible: Seq<bool>) -> int
    decreases visible.len(),
{
    if visible.len() == 0 {
        -1
    } else if visible.last() {
        visible.len() - 1
    } else {
        last_visible(visible.drop_last())
    }
}

/// The layer to activate after opening layers with visibility `visible`:
/// the top visible one, or else the top one.
pub fn opening_active_layer(visible: &[bool]) -> (i: usize)
    requires
        visible@.len() > 0,
    ensures
        i == if last_visible(visible@) >= 0 { last_visible(visible@) } else { visible@.len() - 1 },
{
    let mut i = visible.len();
    assert(visible@.take(i as int) =~= visible@);
    while i > 0
        invariant
            i <= visible@.len(),
            last_visible(visible@) == last_visible(visible@.take(i as int)),
        decreases i,
    {
        assert(visible@.take(i as int).drop_last() =~= visible@.take(i - 1));
        if visible[i - 1] {
            return i - 1;
        }
        i -= 1;
    }
    visible.len() - 1
}

/// Whether a `width` × `height` layer holds exactly `len` pixels, without
/// the product overflowing.
pub fn layer_pixels_match(width: usize, height: usize, len: usize) -> (b: bool)
    ensures
        b == (width * height == len),
{
    match width.checked_mul(height) {
        Some(n) => n == len,
        None => false,
    }
}

/// Where pixel `i` of a `layer_width`-wide layer placed at (`left`, `top`)
/// lands on a `width` × `height` canvas: the canvas index, or none when it
/// falls outside.
pub open spec fn placed(left: int, top: int, layer_width: int, i: int, width: int, height: int) -> Option<int> {
    let x = left + i % layer_width;
    let y = top + i / layer_width;
    if 0 <= x < width && 0 <= y < height { Some(y * width + x) } else { None }
}

/// Where pixel `i` of a `layer_width`-wide layer placed at (`left`, `top`)
/// lands on a `width` × `height` canvas; pixels outside are dropped.
pub fn placed_index(left: i32, top: i32, layer_width: usize, i: usize, width: usize, height: usize) -> (r: Option<usize>)
    requires
        layer_width > 0,
        width * height <= usize::MAX,
    ensures
        r matches Some(j) ==> placed(left as int, top as int, layer_width as int, i as int, width as int, height as int) == Some(j as int),
        r is None ==> placed(left as int, top as int, layer_width as int, i as int, width as int, height as int) is None,
{
    let cx = i % layer_width;
    let cy = i / layer_width;
    let inside_x = if left < 0 {
        let shift = (-(left as i64)) as usize;
        if cx < shift { None } else { Some(cx - shift) }
    } else {
        let shift = left as usize;
        if cx >= width || shift >= width - cx { None } else { Some(cx + shift) }
    };
    let inside_y = if top < 0 {
        let shift = (-(top as i64)) as usize;
        if cy < shift { None } else { Some(cy - shift) }
    } else {
        let shift = top as usize;
        if cy >= height || shift >= height - cy { None } else { Some(cy + shift) }
    };
    match (inside_x, inside_y) {
        (Some(x), Some(y)) => {
            if x >= width || y >= height {
                return None;
            }
            proof {
                assert(y * width + x < width * height) by (nonlinear_arith)
                    requires x < width, y < height;
            }
            Some(y * width + x)
        },
        _ => None,
    }
}

} // verus!
